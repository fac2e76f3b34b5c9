//! Fixed-point amounts.
//!
//! A volume, a price or a sum of money is an integer number of billionths of
//! its unit: `1_500_000_000` stands for 1.5. Products of two amounts are
//! brought back to this scale by dividing by [`SCALE`], rounding toward zero.

use vstd::prelude::*;

verus! {

/// Number of stored units in one whole unit (nine fractional digits).
pub const SCALE: u64 = 1_000_000_000;

/// Tolerance below which a volume counts as nothing: 0.00001 of a unit.
pub const EPS: u64 = 10_000;

/// Largest USD value that one side of a well-formed trade may have: one
/// billion dollars. It keeps every derived amount inside 64 bits.
pub const MAX_USD_VALUE: u64 = 1_000_000_000_000_000_000;

/// Quotient of `a` by a positive `b`, rounded toward zero.
pub open spec fn div_trunc(a: int, b: int) -> int {
    if a >= 0 {
        a / b
    } else {
        -((-a) / b)
    }
}

/// USD value of `volume` units at `price` USD each.
pub open spec fn usd_value(volume: int, price: int) -> int {
    (volume * price) / (SCALE as int)
}

/// Computes [`usd_value`] without overflow for any pair of 64-bit amounts.
pub fn usd_value_of(volume: u64, price: u64) -> (value: u128)
    ensures
        value == usd_value(volume as int, price as int),
{
    assert(volume * price <= u64::MAX * u64::MAX) by (nonlinear_arith)
        requires
            volume <= u64::MAX,
            price <= u64::MAX,
    ;
    let product: u128 = (volume as u128) * (price as u128);
    product / (SCALE as u128)
}

} // verus!
