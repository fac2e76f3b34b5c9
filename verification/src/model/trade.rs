//! One exchange transaction and the fee it implies.

use vstd::prelude::*;

use crate::amount::{div_trunc, usd_value, usd_value_of, MAX_USD_VALUE, SCALE};
use crate::model::Currency;
use crate::utils::time_utils::Timestamp;

verus! {

/// A trade of `volume_from` units of `currency_from` for `volume_to` units of
/// `currency_to`, with the USD price of one unit of each at that moment.
#[derive(Clone, Debug)]
pub struct Trade {
    pub datetime: Timestamp,
    pub exchange_name: String,
    pub volume_from: u64,
    pub currency_from: Currency,
    pub currency_from_price_usd: u64,
    pub volume_to: u64,
    pub currency_to: Currency,
    pub currency_to_price_usd: u64,
    pub notes: Vec<String>,
}

/// The volumes and prices of a trade are positive, and neither side is
/// worth more than [`MAX_USD_VALUE`].
pub open spec fn well_formed_amounts(
    volume_from: int,
    price_from: int,
    volume_to: int,
    price_to: int,
) -> bool {
    &&& volume_from > 0
    &&& volume_to > 0
    &&& price_from > 0
    &&& price_to > 0
    &&& usd_value(volume_from, price_from) <= MAX_USD_VALUE
    &&& usd_value(volume_to, price_to) <= MAX_USD_VALUE
}

impl Trade {
    /// Volumes and prices are positive, and neither side is worth more than
    /// [`MAX_USD_VALUE`].
    pub open spec fn well_formed(&self) -> bool {
        well_formed_amounts(
            self.volume_from as int,
            self.currency_from_price_usd as int,
            self.volume_to as int,
            self.currency_to_price_usd as int,
        )
    }

    /// Volume of `currency_to` that the source side would buy at the quoted
    /// prices if no fee were taken.
    pub open spec fn expected_volume_to(&self) -> int {
        (self.volume_from * self.currency_from_price_usd) / (self.currency_to_price_usd as int)
    }

    /// Volume of `currency_to` that the exchange kept. Negative when more
    /// arrived than the prices explain.
    pub open spec fn fee_volume(&self) -> int {
        self.expected_volume_to() - self.volume_to
    }

    /// The fee in USD: the kept volume at the destination price.
    pub open spec fn spec_fees_usd(&self) -> int {
        div_trunc(self.fee_volume() * self.currency_to_price_usd, SCALE as int)
    }

    /// The fee as a percentage of the expected volume, with nine fractional
    /// digits; undefined when nothing was expected.
    pub open spec fn spec_fees_percent(&self) -> Option<int> {
        if self.expected_volume_to() == 0 {
            None
        } else {
            Some(div_trunc(self.fee_volume() * 100 * SCALE, self.expected_volume_to()))
        }
    }

    /// Cost basis of what the trade acquires: its value at the destination
    /// price plus the fee.
    pub open spec fn spec_acquisition_cost(&self) -> int {
        usd_value(self.volume_to as int, self.currency_to_price_usd as int) + self.spec_fees_usd()
    }

    /// Tests [`Trade::well_formed`].
    pub fn is_well_formed(&self) -> (ok: bool)
        ensures
            ok == self.well_formed(),
    {
        self.volume_from > 0 && self.volume_to > 0 && self.currency_from_price_usd > 0
            && self.currency_to_price_usd > 0 && usd_value_of(
            self.volume_from,
            self.currency_from_price_usd,
        ) <= MAX_USD_VALUE as u128 && usd_value_of(self.volume_to, self.currency_to_price_usd)
            <= MAX_USD_VALUE as u128
    }

    /// The fee in USD: what the prices say should have come, less what
    /// came, at the destination price. It is signed: more than expected may
    /// have come.
    pub fn fees_usd(&self) -> (fee: i64)
        requires
            self.well_formed(),
        ensures
            fee == self.spec_fees_usd(),
    {
        let vf = self.volume_from as u128;
        let pf = self.currency_from_price_usd as u128;
        let vt = self.volume_to as u128;
        let pt = self.currency_to_price_usd as u128;
        proof {
            lemma_fee_bounds(vf as int, pf as int, vt as int, pt as int);
        }
        assert(vf * pf <= u64::MAX * u64::MAX) by (nonlinear_arith)
            requires
                vf <= u64::MAX,
                pf <= u64::MAX,
        ;
        let expected: u128 = (vf * pf) / pt;
        assert(expected == self.expected_volume_to());
        if expected >= vt {
            let kept: u128 = (expected - vt) * pt;
            assert(kept == self.fee_volume() * self.currency_to_price_usd);
            (kept / (SCALE as u128)) as i64
        } else {
            let owed: u128 = (vt - expected) * pt;
            assert(owed == -(self.fee_volume() * self.currency_to_price_usd)) by (nonlinear_arith)
                requires
                    owed == (vt - expected) * pt,
                    self.fee_volume() == expected - vt,
                    pt == self.currency_to_price_usd,
            ;
            -((owed / (SCALE as u128)) as i64)
        }
    }

    /// Cost basis of what the trade acquires, fee included.
    pub fn acquisition_cost(&self) -> (cost: u64)
        requires
            self.well_formed(),
        ensures
            cost == self.spec_acquisition_cost(),
    {
        proof {
            lemma_acquisition_cost_bounds(*self);
        }
        let value = usd_value_of(self.volume_to, self.currency_to_price_usd) as i128;
        let fee = self.fees_usd() as i128;
        (value + fee) as u64
    }

    /// The fee in percent of the expected volume, with nine fractional
    /// digits; `None` where nothing was expected.
    pub fn fees_percent(&self) -> (percent: Option<i128>)
        requires
            self.well_formed(),
        ensures
            percent is Some <==> self.spec_fees_percent() is Some,
            percent is Some ==> percent->0 == self.spec_fees_percent()->0,
    {
        let vf = self.volume_from as u128;
        let pf = self.currency_from_price_usd as u128;
        let vt = self.volume_to as u128;
        let pt = self.currency_to_price_usd as u128;
        proof {
            lemma_fee_bounds(vf as int, pf as int, vt as int, pt as int);
        }
        assert(vf * pf <= u64::MAX * u64::MAX) by (nonlinear_arith)
            requires
                vf <= u64::MAX,
                pf <= u64::MAX,
        ;
        let expected: u128 = (vf * pf) / pt;
        assert(expected == self.expected_volume_to());
        if expected == 0 {
            return None;
        }
        let hundred: u128 = 100 * (SCALE as u128);
        if expected >= vt {
            let kept: u128 = (expected - vt) * hundred;
            assert(kept == self.fee_volume() * 100 * SCALE) by (nonlinear_arith)
                requires
                    kept == (expected - vt) * hundred,
                    hundred == 100 * SCALE,
                    self.fee_volume() == expected - vt,
            ;
            proof {
                lemma_share_below(hundred as int, (expected - vt) as int, expected as int);
                assert((expected - vt) * hundred == hundred * (expected - vt)) by (nonlinear_arith);
            }
            Some((kept / expected) as i128)
        } else {
            let owed: u128 = (vt - expected) * hundred;
            assert(owed == -(self.fee_volume() * 100 * SCALE)) by (nonlinear_arith)
                requires
                    owed == (vt - expected) * hundred,
                    hundred == 100 * SCALE,
                    self.fee_volume() == expected - vt,
            ;
            proof {
                vstd::arithmetic::div_mod::lemma_div_pos_is_pos(owed as int, expected as int);
                vstd::arithmetic::div_mod::lemma_div_is_ordered_by_denominator(
                    owed as int,
                    1,
                    expected as int,
                );
            }
            Some(-((owed / expected) as i128))
        }
    }
}

/// The cost basis of what a well-formed trade acquires is not negative and
/// within the limit on a side.
pub proof fn lemma_acquisition_cost_bounds(trade: Trade)
    requires
        trade.well_formed(),
    ensures
        0 <= trade.spec_acquisition_cost() <= MAX_USD_VALUE,
{
    let vf = trade.volume_from as int;
    let pf = trade.currency_from_price_usd as int;
    let vt = trade.volume_to as int;
    let pt = trade.currency_to_price_usd as int;
    let s = SCALE as int;
    let e = (vf * pf) / pt;
    lemma_fee_bounds(vf, pf, vt, pt);
    vstd::arithmetic::div_mod::lemma_div_pos_is_pos(vt * pt, s);
    if e >= vt {
        let kept = (e - vt) * pt;
        assert(kept + vt * pt == e * pt) by (nonlinear_arith)
            requires
                kept == (e - vt) * pt,
        ;
        lemma_div_sum_below(vt * pt, kept);
        vstd::arithmetic::div_mod::lemma_div_is_ordered(e * pt, vf * pf, s);
        vstd::arithmetic::div_mod::lemma_div_pos_is_pos(kept, s);
    } else {
        let owed = (vt - e) * pt;
        assert(-((e - vt) * pt) == owed) by (nonlinear_arith)
            requires
                owed == (vt - e) * pt,
        ;
        assert(owed <= vt * pt);
        vstd::arithmetic::div_mod::lemma_div_is_ordered(owed, vt * pt, s);
        vstd::arithmetic::div_mod::lemma_div_pos_is_pos(owed, s);
        if (e - vt) * pt >= 0 {
            assert(owed == 0);
        }
    }
}

/// Rounding two amounts down before adding them never gives more than
/// rounding their sum.
pub proof fn lemma_div_sum_below(a: int, b: int)
    requires
        0 <= a,
        0 <= b,
    ensures
        a / (SCALE as int) + b / (SCALE as int) <= (a + b) / (SCALE as int),
{
    let s = SCALE as int;
    vstd::arithmetic::div_mod::lemma_fundamental_div_mod(a, s);
    vstd::arithmetic::div_mod::lemma_fundamental_div_mod(b, s);
    vstd::arithmetic::div_mod::lemma_mod_bound(a, s);
    vstd::arithmetic::div_mod::lemma_mod_bound(b, s);
    let q = a / s + b / s;
    assert(s * q == s * (a / s) + s * (b / s)) by (nonlinear_arith)
        requires
            q == a / s + b / s,
    ;
    vstd::arithmetic::div_mod::lemma_div_is_ordered(s * q, a + b, s);
    vstd::arithmetic::div_mod::lemma_div_multiples_vanish(q, s);
}

/// A share `part / whole` of `x`, with `part` at most `whole`, is at most `x`.
pub proof fn lemma_share_below(x: int, part: int, whole: int)
    requires
        0 <= x,
        0 <= part <= whole,
        0 < whole,
    ensures
        0 <= (x * part) / whole <= x,
{
    assert(0 <= x * part <= x * whole) by (nonlinear_arith)
        requires
            0 <= x,
            0 <= part <= whole,
    ;
    vstd::arithmetic::div_mod::lemma_div_pos_is_pos(x * part, whole);
    vstd::arithmetic::div_mod::lemma_div_is_ordered(x * part, x * whole, whole);
    vstd::arithmetic::div_mod::lemma_div_multiples_vanish(x, whole);
    assert(x * whole == whole * x) by (nonlinear_arith);
}

/// For a well-formed trade the fee stays within the value of either side.
pub proof fn lemma_fee_bounds(vf: int, pf: int, vt: int, pt: int)
    requires
        0 <= vf,
        0 <= pf,
        0 <= vt,
        0 < pt,
        usd_value(vf, pf) <= MAX_USD_VALUE,
        usd_value(vt, pt) <= MAX_USD_VALUE,
    ensures
        0 <= (vf * pf) / pt,
        ((vf * pf) / pt) * pt <= vf * pf,
        vf * pf < (MAX_USD_VALUE + 1) * SCALE,
        vt * pt < (MAX_USD_VALUE + 1) * SCALE,
        ((vf * pf) / pt >= vt) ==> 0 <= ((vf * pf) / pt - vt) * pt <= vf * pf,
        ((vf * pf) / pt < vt) ==> 0 <= (vt - (vf * pf) / pt) * pt <= vt * pt,
        -MAX_USD_VALUE <= div_trunc(((vf * pf) / pt - vt) * pt, SCALE as int) <= MAX_USD_VALUE,
{
    let s = SCALE as int;
    let e = (vf * pf) / pt;
    assert(0 <= vf * pf) by (nonlinear_arith)
        requires
            0 <= vf,
            0 <= pf,
    ;
    assert(0 <= vt * pt) by (nonlinear_arith)
        requires
            0 <= vt,
            0 <= pt,
    ;
    vstd::arithmetic::div_mod::lemma_fundamental_div_mod(vf * pf, pt);
    vstd::arithmetic::div_mod::lemma_fundamental_div_mod(vf * pf, s);
    vstd::arithmetic::div_mod::lemma_fundamental_div_mod(vt * pt, s);
    vstd::arithmetic::div_mod::lemma_div_pos_is_pos(vf * pf, pt);
    vstd::arithmetic::div_mod::lemma_mod_bound(vf * pf, pt);
    vstd::arithmetic::div_mod::lemma_mod_bound(vf * pf, s);
    vstd::arithmetic::div_mod::lemma_mod_bound(vt * pt, s);
    assert(e * pt == pt * e) by (nonlinear_arith);
    assert(e * pt <= vf * pf);
    assert((e - vt) * pt == e * pt - vt * pt) by (nonlinear_arith);
    assert((vt - e) * pt == vt * pt - e * pt) by (nonlinear_arith);
    assert(0 <= e * pt) by (nonlinear_arith)
        requires
            0 <= e,
            0 < pt,
    ;
    if e >= vt {
        assert(0 <= (e - vt) * pt) by (nonlinear_arith)
            requires
                0 <= e - vt,
                0 < pt,
        ;
        lemma_div_below(((e - vt) * pt), MAX_USD_VALUE as int);
    } else {
        assert(0 <= (vt - e) * pt) by (nonlinear_arith)
            requires
                0 <= vt - e,
                0 < pt,
        ;
        assert(-((e - vt) * pt) == (vt - e) * pt);
        lemma_div_below(((vt - e) * pt), MAX_USD_VALUE as int);
    }
}

/// A non-negative amount below `(bound + 1)` whole units has at most `bound`
/// of them.
pub proof fn lemma_div_below(x: int, bound: int)
    requires
        0 <= x < (bound + 1) * SCALE,
    ensures
        0 <= x / (SCALE as int) <= bound,
{
    let s = SCALE as int;
    vstd::arithmetic::div_mod::lemma_fundamental_div_mod(x, s);
    vstd::arithmetic::div_mod::lemma_mod_bound(x, s);
    vstd::arithmetic::div_mod::lemma_div_pos_is_pos(x, s);
    let q = x / s;
    if q > bound {
        assert(s * q >= s * (bound + 1)) by (nonlinear_arith)
            requires
                q >= bound + 1,
                s > 0,
        ;
        assert(s * (bound + 1) == (bound + 1) * s) by (nonlinear_arith);
    }
}

} // verus!
