//! FIFO tax-lot accounting for a chronological log of currency trades.
//!
//! Every quantity of money or currency is a fixed-point decimal with nine
//! fractional digits, held as an integer count of billionths (see
//! [`amount`]). The matching engine lives in [`model::wallet`].

pub mod amount;
pub mod decimal;
pub mod model;
pub mod utils;
