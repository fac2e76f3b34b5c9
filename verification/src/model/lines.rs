//! The records as lines of text, for reports and for the trade log.

use vstd::prelude::*;
use vstd::string::StringExecFns;

use crate::decimal::{format_amount, format_signed_amount, text_of_amount, text_of_signed};
use crate::model::sell_trade::SellTrade;
use crate::model::trade::Trade;
use crate::model::usd_trade::UsdTrade;
use crate::utils::time_utils::{
    datetime_to_str, datetime_to_tax_str, formatted_instant, formatted_tax_instant,
};

verus! {

/// The heading of a list of USD sides.
pub const BITCOINTAX_INPUT_COLUMNS: &'static str =
    "Date,Action,Source,Symbol,Volume,Price,Currency,Fee";

/// The line of a trade made at the time written `when`.
pub open spec fn trade_line(trade: Trade, when: Seq<char>) -> Seq<char> {
    "["@ + when + "] "@ + text_of_amount(trade.volume_from as int) + " "@ + trade.currency_from@
        + " => "@ + text_of_amount(trade.volume_to as int) + " "@ + trade.currency_to@ + " ("@
        + trade.currency_from@ + "="@ + text_of_amount(trade.currency_from_price_usd as int)
        + ", "@ + trade.currency_to@ + "="@ + text_of_amount(trade.currency_to_price_usd as int)
        + ", "@ + trade.exchange_name@ + ")"@
}

/// The line of a trade with its fee: in USD, and in percent where there is
/// an expected volume to take it of.
pub open spec fn trade_fee_line(trade: Trade, when: Seq<char>) -> Seq<char> {
    trade_line(trade, when).drop_last() + ", fees=["@ + text_of_signed(trade.spec_fees_usd())
        + " USD, "@ + (match trade.spec_fees_percent() {
        Some(percent) => text_of_signed(percent),
        None => "NaN"@,
    }) + "%])"@
}

/// The line of a realized sale of something bought at the time written
/// `bought` and sold at the time written `sold`.
pub open spec fn sale_line(sale: SellTrade, bought: Seq<char>, sold: Seq<char>) -> Seq<char> {
    text_of_amount(sale.volume as int) + " "@ + sale.currency@ + " "@ + bought + " "@ + sold
        + " "@ + text_of_signed(sale.proceeds as int) + " "@ + text_of_amount(
        sale.cost_basis as int,
    ) + " "@ + text_of_signed(sale.spec_gain())
}

/// The line of a USD side made at the time written `when`.
pub open spec fn usd_line(side: UsdTrade, when: Seq<char>) -> Seq<char> {
    when + ","@ + (if side.is_buy {
        "BUY"@
    } else {
        "SELL"@
    }) + ","@ + side.exchange_name@ + ","@ + side.currency@ + ","@ + text_of_amount(
        side.volume as int,
    ) + ","@ + text_of_amount(side.price_usd as int) + ",USD,"@ + text_of_signed(
        side.fees_usd as int,
    )
}

impl Trade {
    /// The trade as a line of the log; `None` where the calendar cannot
    /// show its time.
    pub fn to_line(&self) -> (line: Option<String>)
        ensures
            match line {
                Some(text) => formatted_instant(self.datetime.millis as int) is Some && text@
                    == trade_line(*self, formatted_instant(self.datetime.millis as int)->0),
                None => formatted_instant(self.datetime.millis as int) is None,
            },
    {
        let when = match datetime_to_str(&self.datetime) {
            Some(when) => when,
            None => { return None; },
        };
        let mut text = String::from_str("[");
        text.append(when.as_str());
        text.append("] ");
        text.append(format_amount(self.volume_from as u128).as_str());
        text.append(" ");
        text.append(self.currency_from.as_str());
        text.append(" => ");
        text.append(format_amount(self.volume_to as u128).as_str());
        text.append(" ");
        text.append(self.currency_to.as_str());
        text.append(" (");
        text.append(self.currency_from.as_str());
        text.append("=");
        text.append(format_amount(self.currency_from_price_usd as u128).as_str());
        text.append(", ");
        text.append(self.currency_to.as_str());
        text.append("=");
        text.append(format_amount(self.currency_to_price_usd as u128).as_str());
        text.append(", ");
        text.append(self.exchange_name.as_str());
        text.append(")");
        Some(text)
    }

    /// The trade as a line with its fee; `None` where the calendar cannot
    /// show its time.
    pub fn to_fee_line(&self) -> (line: Option<String>)
        requires
            self.well_formed(),
        ensures
            match line {
                Some(text) => formatted_instant(self.datetime.millis as int) is Some && text@
                    == trade_fee_line(*self, formatted_instant(self.datetime.millis as int)->0),
                None => formatted_instant(self.datetime.millis as int) is None,
            },
    {
        let when = match datetime_to_str(&self.datetime) {
            Some(when) => when,
            None => { return None; },
        };
        let mut text = String::from_str("[");
        text.append(when.as_str());
        text.append("] ");
        text.append(format_amount(self.volume_from as u128).as_str());
        text.append(" ");
        text.append(self.currency_from.as_str());
        text.append(" => ");
        text.append(format_amount(self.volume_to as u128).as_str());
        text.append(" ");
        text.append(self.currency_to.as_str());
        text.append(" (");
        text.append(self.currency_from.as_str());
        text.append("=");
        text.append(format_amount(self.currency_from_price_usd as u128).as_str());
        text.append(", ");
        text.append(self.currency_to.as_str());
        text.append("=");
        text.append(format_amount(self.currency_to_price_usd as u128).as_str());
        text.append(", ");
        text.append(self.exchange_name.as_str());
        let ghost open = text@;
        proof {
            reveal_strlit(")");
            assert((open + ")"@).drop_last() =~= open);
        }
        text.append(", fees=[");
        text.append(format_signed_amount(self.fees_usd() as i128).as_str());
        text.append(" USD, ");
        match self.fees_percent() {
            Some(percent) => {
                text.append(format_signed_amount(percent).as_str());
            },
            None => {
                text.append("NaN");
            },
        }
        text.append("%])");
        Some(text)
    }
}

impl SellTrade {
    /// The sale as a line of a tax form; `None` where the calendar cannot
    /// show one of its times.
    pub fn to_line(&self) -> (line: Option<String>)
        ensures
            match line {
                Some(text) => formatted_instant(self.buy_datetime.millis as int) is Some
                    && formatted_instant(self.sell_datetime.millis as int) is Some && text@
                    == sale_line(
                    *self,
                    formatted_instant(self.buy_datetime.millis as int)->0,
                    formatted_instant(self.sell_datetime.millis as int)->0,
                ),
                None => formatted_instant(self.buy_datetime.millis as int) is None
                    || formatted_instant(self.sell_datetime.millis as int) is None,
            },
    {
        let bought = match datetime_to_str(&self.buy_datetime) {
            Some(when) => when,
            None => { return None; },
        };
        let sold = match datetime_to_str(&self.sell_datetime) {
            Some(when) => when,
            None => { return None; },
        };
        let mut text = format_amount(self.volume as u128);
        text.append(" ");
        text.append(self.currency.as_str());
        text.append(" ");
        text.append(bought.as_str());
        text.append(" ");
        text.append(sold.as_str());
        text.append(" ");
        text.append(format_signed_amount(self.proceeds as i128).as_str());
        text.append(" ");
        text.append(format_amount(self.cost_basis as u128).as_str());
        text.append(" ");
        text.append(format_signed_amount(self.gain()).as_str());
        Some(text)
    }
}

impl UsdTrade {
    /// The side as a line for tax tools; `None` where the calendar cannot
    /// show its time.
    pub fn to_line(&self) -> (line: Option<String>)
        ensures
            match line {
                Some(text) => formatted_tax_instant(self.datetime.millis as int) is Some && text@
                    == usd_line(*self, formatted_tax_instant(self.datetime.millis as int)->0),
                None => formatted_tax_instant(self.datetime.millis as int) is None,
            },
    {
        let mut text = match datetime_to_tax_str(&self.datetime) {
            Some(when) => when,
            None => { return None; },
        };
        text.append(",");
        if self.is_buy {
            text.append("BUY");
        } else {
            text.append("SELL");
        }
        text.append(",");
        text.append(self.exchange_name.as_str());
        text.append(",");
        text.append(self.currency.as_str());
        text.append(",");
        text.append(format_amount(self.volume as u128).as_str());
        text.append(",");
        text.append(format_amount(self.price_usd as u128).as_str());
        text.append(",USD,");
        text.append(format_signed_amount(self.fees_usd as i128).as_str());
        Some(text)
    }
}

} // verus!
