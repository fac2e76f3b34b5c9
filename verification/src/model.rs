//! The records of the ledger: trades, open lots, realized sales.

use vstd::prelude::*;
use vstd::string::StringExecFns;

pub mod holdings;
pub mod ledger;
pub mod lexical;
pub mod lines;
pub mod proceeds;
pub mod random_trades;
pub mod report;
pub mod sell_trade;
pub mod trade;
pub mod trade_text;
pub mod usd_trade;
pub mod wallet;

verus! {

/// A currency is named by its ticker symbol.
pub type Currency = String;

/// Whether `currency` is the reporting currency, the US dollar.
pub open spec fn is_usd(currency: Seq<char>) -> bool {
    currency == "USD"@
}

/// Tests [`is_usd`].
pub fn currency_is_usd(currency: &Currency) -> (usd: bool)
    ensures
        usd == is_usd(currency@),
{
    let reporting = String::from_str("USD");
    *currency == reporting
}

} // verus!
