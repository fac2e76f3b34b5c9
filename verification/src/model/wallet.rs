//! The matching engine: it takes the trades of a log one by one, matches
//! each disposal against the oldest open lots of its currency, and keeps the
//! realized sales and the lots still open.

use vstd::prelude::*;

use crate::amount::{usd_value, EPS, MAX_USD_VALUE};
use crate::model::holdings::{
    all_positive, covers, lemma_disposal_conserves, lemma_fifo_order, lemma_slices_within,
    lemma_totals_bounded, lemma_totals_of_push, lots_after, slices_sold, total_cost_basis,
    total_volume, totals, HoldingsItem,
};
use crate::model::ledger::{
    deposit, drain, find_bucket, has_bucket, lemma_queue_at, queue_in, well_kept, HoldingsBucket,
};
use crate::model::proceeds::{aggregate, all_in_range, is_aggregate_of, Proceeds, ProceedsError};
use crate::model::report::{has_source, reports, snapshot, summarizes, HoldingsSummary};
use crate::utils::time_utils::{indices_within, is_selection, Timestamp};
use crate::model::sell_trade::{is_slice_of, lemma_proceeds_bounds, proceeds_of, sale_of, SellTrade};
use crate::model::trade::{lemma_acquisition_cost_bounds, Trade};
use crate::model::usd_trade::{usd_side, UsdTrade};
use crate::model::{currency_is_usd, is_usd, Currency};

verus! {

/// Why a trade could not be taken.
#[derive(Debug)]
pub enum WalletError {
    /// The trade disposes of more of `currency` than is held, or of a
    /// currency of which nothing is held. `shortfall` is what is missing.
    InsufficientHoldings { trade_idx: usize, currency: Currency, shortfall: u64 },
}

/// `trade` adds a lot to the queue of `currency`.
pub open spec fn acquires(trade: Trade, currency: Seq<char>) -> bool {
    !is_usd(trade.currency_to@) && trade.currency_to@ == currency
}

/// `trade` takes from the queue of `currency`.
pub open spec fn disposes(trade: Trade, currency: Seq<char>) -> bool {
    !is_usd(trade.currency_from@) && trade.currency_from@ == currency
}

/// Volume of `currency` that the trades acquired.
pub open spec fn acquired_volume(trades: Seq<Trade>, currency: Seq<char>) -> int
    decreases trades.len(),
{
    if trades.len() == 0 {
        0
    } else {
        acquired_volume(trades.drop_last(), currency) + if acquires(trades.last(), currency) {
            trades.last().volume_to as int
        } else {
            0
        }
    }
}

/// Cost basis of all that the trades acquired of `currency`.
pub open spec fn acquired_cost(trades: Seq<Trade>, currency: Seq<char>) -> int
    decreases trades.len(),
{
    if trades.len() == 0 {
        0
    } else {
        acquired_cost(trades.drop_last(), currency) + if acquires(trades.last(), currency) {
            trades.last().spec_acquisition_cost()
        } else {
            0
        }
    }
}

/// Volume of `currency` in the realized sales.
pub open spec fn sold_volume(sales: Seq<SellTrade>, currency: Seq<char>) -> int
    decreases sales.len(),
{
    if sales.len() == 0 {
        0
    } else {
        sold_volume(sales.drop_last(), currency) + if sales.last().currency@ == currency {
            sales.last().volume as int
        } else {
            0
        }
    }
}

/// Cost basis of `currency` in the realized sales.
pub open spec fn sold_cost(sales: Seq<SellTrade>, currency: Seq<char>) -> int
    decreases sales.len(),
{
    if sales.len() == 0 {
        0
    } else {
        sold_cost(sales.drop_last(), currency) + if sales.last().currency@ == currency {
            sales.last().cost_basis as int
        } else {
            0
        }
    }
}

/// The lot that `trade`, the trade number `idx`, acquires.
pub open spec fn new_lot(trade: Trade, idx: usize) -> HoldingsItem {
    HoldingsItem {
        volume: trade.volume_to,
        cost_basis: trade.spec_acquisition_cost() as u64,
        trade_idx: idx,
    }
}

/// The queue of `currency` after `trade`, the trade number `idx`: first the
/// disposal drains it, then the acquisition adds its lot at the end.
pub open spec fn queue_after(
    queue: Seq<HoldingsItem>,
    currency: Seq<char>,
    trade: Trade,
    idx: usize,
) -> Seq<HoldingsItem> {
    let drained = if disposes(trade, currency) {
        lots_after(queue, trade.volume_from as int)
    } else {
        queue
    };
    if acquires(trade, currency) {
        drained.push(new_lot(trade, idx))
    } else {
        drained
    }
}

/// The realized sales of the slices that the disposal `sell_trade`, the
/// trade number `idx`, took: one per slice, in the same order.
pub open spec fn sales_from(
    slices: Seq<HoldingsItem>,
    trades: Seq<Trade>,
    sell_trade: Trade,
    idx: usize,
) -> Seq<SellTrade> {
    Seq::new(
        slices.len(),
        |j: int| sale_of(slices[j], trades[slices[j].trade_idx as int], sell_trade, idx),
    )
}

/// The realized sales after `trade`, where `queue` is the queue of the
/// currency that it gives.
pub open spec fn sales_after(
    sales: Seq<SellTrade>,
    queue: Seq<HoldingsItem>,
    trades: Seq<Trade>,
    trade: Trade,
) -> Seq<SellTrade> {
    if is_usd(trade.currency_from@) {
        sales
    } else {
        sales + sales_from(
            slices_sold(queue, trade.volume_from as int),
            trades,
            trade,
            trades.len() as usize,
        )
    }
}

/// The USD sides after `trade`: its sale side unless it gives USD, then its
/// purchase side unless it takes USD.
pub open spec fn usd_log_after(log: Seq<UsdTrade>, trade: Trade) -> Seq<UsdTrade> {
    let with_sale = if is_usd(trade.currency_from@) {
        log
    } else {
        log.push(usd_side(trade, false))
    };
    if is_usd(trade.currency_to@) {
        with_sale
    } else {
        with_sale.push(usd_side(trade, true))
    }
}

/// The disposal of `trade` can be served from `queue`: it gives USD, or the
/// queue is not empty and holds the volume up to the tolerance.
pub open spec fn can_dispose(queue: Seq<HoldingsItem>, trade: Trade) -> bool {
    is_usd(trade.currency_from@) || (queue.len() > 0 && covers(queue, trade.volume_from as int))
}

/// The log is in the order of time.
pub open spec fn chronological(trades: Seq<Trade>) -> bool {
    forall|i: int, j: int|
        0 <= i <= j < trades.len() ==> (#[trigger] trades[i]).datetime.millis <= (
        #[trigger] trades[j]).datetime.millis
}

/// An open lot of `currency` holds something and points at the trade that
/// acquired it.
pub open spec fn lot_ok(lot: HoldingsItem, currency: Seq<char>, trades: Seq<Trade>) -> bool {
    &&& lot.volume > 0
    &&& lot.cost_basis <= MAX_USD_VALUE
    &&& lot.trade_idx < trades.len()
    &&& trades[lot.trade_idx as int].currency_to@ == currency
}

/// The queue of `currency` holds good lots, in the order of the trades that
/// acquired them, and USD has no queue.
pub open spec fn queue_ok(queue: Seq<HoldingsItem>, currency: Seq<char>, trades: Seq<Trade>) -> bool {
    &&& forall|j: int| 0 <= j < queue.len() ==> lot_ok(#[trigger] queue[j], currency, trades)
    &&& forall|j: int, k: int|
        0 <= j < k < queue.len() ==> (#[trigger] queue[j]).trade_idx < (
        #[trigger] queue[k]).trade_idx
    &&& queue.len() > 0 ==> !is_usd(currency)
}

/// A realized sale points at an acquisition and at a later disposal of the
/// same currency, and is what [`sale_of`] makes of them.
pub open spec fn sale_ok(sale: SellTrade, trades: Seq<Trade>) -> bool {
    &&& sale.buy_trade_idx < sale.sell_trade_idx < trades.len()
    &&& sale == sale_of(
        HoldingsItem {
            volume: sale.volume,
            cost_basis: sale.cost_basis,
            trade_idx: sale.buy_trade_idx,
        },
        trades[sale.buy_trade_idx as int],
        trades[sale.sell_trade_idx as int],
        sale.sell_trade_idx,
    )
    &&& sale.proceeds == proceeds_of(sale.volume as int, trades[sale.sell_trade_idx as int])
    &&& trades[sale.buy_trade_idx as int].currency_to@ == sale.currency@
    &&& !is_usd(sale.currency@)
    &&& is_slice_of(sale.volume as int, trades[sale.sell_trade_idx as int])
    &&& sale.in_range()
}

/// What a batch of realized sales adds to the sums of the sales: the sums
/// of its slices, for the currency of the disposal.
pub proof fn lemma_sold_of_batch(
    sales: Seq<SellTrade>,
    slices: Seq<HoldingsItem>,
    trades: Seq<Trade>,
    sell_trade: Trade,
    idx: usize,
    currency: Seq<char>,
)
    ensures
        sold_volume(sales + sales_from(slices, trades, sell_trade, idx), currency) == sold_volume(
            sales,
            currency,
        ) + if sell_trade.currency_from@ == currency {
            total_volume(slices)
        } else {
            0
        },
        sold_cost(sales + sales_from(slices, trades, sell_trade, idx), currency) == sold_cost(
            sales,
            currency,
        ) + if sell_trade.currency_from@ == currency {
            total_cost_basis(slices)
        } else {
            0
        },
    decreases slices.len(),
{
    let batch = sales_from(slices, trades, sell_trade, idx);
    if slices.len() == 0 {
        assert(sales + batch =~= sales);
    } else {
        let earlier = slices.drop_last();
        let last = slices.last();
        lemma_sold_of_batch(sales, earlier, trades, sell_trade, idx, currency);
        assert((sales + batch).drop_last() =~= sales + sales_from(
            earlier,
            trades,
            sell_trade,
            idx,
        ));
        assert((sales + batch).last() == batch[slices.len() - 1]);
        lemma_totals_of_push(earlier, last);
        assert(slices =~= earlier.push(last));
    }
}

/// One more trade adds what it acquires to the sums of the acquisitions.
pub proof fn lemma_acquired_of_push(trades: Seq<Trade>, trade: Trade, currency: Seq<char>)
    ensures
        acquired_volume(trades.push(trade), currency) == acquired_volume(trades, currency)
            + if acquires(trade, currency) {
            trade.volume_to as int
        } else {
            0
        },
        acquired_cost(trades.push(trade), currency) == acquired_cost(trades, currency)
            + if acquires(trade, currency) {
            trade.spec_acquisition_cost()
        } else {
            0
        },
{
    assert(trades.push(trade).drop_last() =~= trades);
}

/// A good queue stays good through a trade.
pub proof fn lemma_queue_ok_after(
    queue: Seq<HoldingsItem>,
    currency: Seq<char>,
    trade: Trade,
    trades: Seq<Trade>,
    idx: usize,
)
    requires
        queue_ok(queue, currency, trades),
        trade.well_formed(),
        idx == trades.len(),
    ensures
        queue_ok(queue_after(queue, currency, trade, idx), currency, trades.push(trade)),
{
    let later = trades.push(trade);
    let drained = if disposes(trade, currency) {
        lots_after(queue, trade.volume_from as int)
    } else {
        queue
    };
    let gone = queue.len() - drained.len();
    if disposes(trade, currency) {
        lemma_fifo_order(queue, trade.volume_from as int);
    } else {
        assert(drained =~= queue.skip(0));
    }
    assert forall|j: int| 0 <= j < drained.len() implies (#[trigger] drained[j]).trade_idx
        == queue[gone + j].trade_idx && drained[j].volume > 0 && drained[j].cost_basis
        <= queue[gone + j].cost_basis by {
        if j >= 1 {
            assert(drained[j] == queue[gone + j]);
        }
        assert(lot_ok(queue[gone + j], currency, trades));
    }
    assert forall|j: int| 0 <= j < drained.len() implies lot_ok(
        #[trigger] drained[j],
        currency,
        later,
    ) by {
        assert(lot_ok(queue[gone + j], currency, trades));
        assert(later[drained[j].trade_idx as int] == trades[drained[j].trade_idx as int]);
    }
    assert forall|j: int, k: int| 0 <= j < k < drained.len() implies (
    #[trigger] drained[j]).trade_idx < (#[trigger] drained[k]).trade_idx by {
        assert(queue[gone + j].trade_idx < queue[gone + k].trade_idx);
    }
    if acquires(trade, currency) {
        lemma_acquisition_cost_bounds(trade);
        let lot = new_lot(trade, idx);
        let grown = drained.push(lot);
        assert(later[idx as int] == trade);
        assert forall|j: int| 0 <= j < grown.len() implies lot_ok(
            #[trigger] grown[j],
            currency,
            later,
        ) by {
            if j < drained.len() {
                assert(lot_ok(drained[j], currency, later));
            }
        }
        assert forall|j: int, k: int| 0 <= j < k < grown.len() implies (
        #[trigger] grown[j]).trade_idx < (#[trigger] grown[k]).trade_idx by {
            assert(lot_ok(queue[gone + j], currency, trades));
            if k < drained.len() {
                assert(drained[j].trade_idx < drained[k].trade_idx);
            }
        }
    }
}

/// The realized sales of a disposal that its queue covers are good sales.
pub proof fn lemma_new_sales_ok(
    queue: Seq<HoldingsItem>,
    trade: Trade,
    trades: Seq<Trade>,
    idx: usize,
)
    requires
        queue_ok(queue, trade.currency_from@, trades),
        !is_usd(trade.currency_from@),
        trade.well_formed(),
        idx == trades.len(),
    ensures
        ({
            let slices = slices_sold(queue, trade.volume_from as int);
            let batch = sales_from(slices, trades, trade, idx);
            &&& forall|j: int|
                0 <= j < slices.len() ==> (#[trigger] slices[j]).trade_idx < trades.len()
                    && is_slice_of(slices[j].volume as int, trade)
            &&& forall|j: int| 0 <= j < batch.len() ==> sale_ok(#[trigger] batch[j], trades.push(trade))
        }),
{
    let slices = slices_sold(queue, trade.volume_from as int);
    let batch = sales_from(slices, trades, trade, idx);
    let later = trades.push(trade);
    lemma_fifo_order(queue, trade.volume_from as int);
    lemma_slices_within(queue, trade.volume_from as int);
    assert forall|j: int| 0 <= j < slices.len() implies (#[trigger] slices[j]).trade_idx
        < trades.len() && is_slice_of(slices[j].volume as int, trade) by {
        assert(lot_ok(queue[j], trade.currency_from@, trades));
    }
    assert forall|j: int| 0 <= j < batch.len() implies sale_ok(#[trigger] batch[j], later) by {
        let slice = slices[j];
        assert(lot_ok(queue[j], trade.currency_from@, trades));
        assert(is_slice_of(slice.volume as int, trade));
        lemma_proceeds_bounds(slice.volume as int, trade);
        assert(later[idx as int] == trade);
        assert(later[slice.trade_idx as int] == trades[slice.trade_idx as int]);
    }
}

/// Makes the realized sales of the slices that a disposal took.
fn record_sales(
    sell_trades: &mut Vec<SellTrade>,
    sold: &Vec<HoldingsItem>,
    trades: &Vec<Trade>,
    trade: &Trade,
)
    requires
        trade.well_formed(),
        forall|j: int|
            0 <= j < sold@.len() ==> (#[trigger] sold@[j]).trade_idx < trades@.len() && is_slice_of(
                sold@[j].volume as int,
                *trade,
            ),
    ensures
        final(sell_trades)@ == old(sell_trades)@ + sales_from(
            sold@,
            trades@,
            *trade,
            trades@.len() as usize,
        ),
{
    let ghost before = sell_trades@;
    let idx = trades.len();
    let mut j: usize = 0;
    while j < sold.len()
        invariant
            j <= sold.len(),
            idx == trades@.len(),
            trade.well_formed(),
            forall|k: int|
                0 <= k < sold@.len() ==> (#[trigger] sold@[k]).trade_idx < trades@.len()
                    && is_slice_of(sold@[k].volume as int, *trade),
            sell_trades@ == before + sales_from(sold@.take(j as int), trades@, *trade, idx),
        decreases sold.len() - j,
    {
        let slice = sold[j];
        assert(sold@[j as int].trade_idx < trades@.len());
        let sale = SellTrade::new(
            slice.volume,
            slice.cost_basis,
            &trades[slice.trade_idx],
            trade,
            slice.trade_idx,
            idx,
        );
        sell_trades.push(sale);
        assert(sell_trades@ =~= before + sales_from(sold@.take(j + 1), trades@, *trade, idx));
        j += 1;
    }
    assert(sold@.take(sold.len() as int) =~= sold@);
}

/// The state of the engine: the trades taken so far, the realized sales, the
/// USD sides, and the ledger of open lots.
pub struct Wallet {
    trades: Vec<Trade>,
    sell_trades: Vec<SellTrade>,
    usd_trades: Vec<UsdTrade>,
    holdings: Vec<HoldingsBucket>,
}

impl Default for Wallet {
    fn default() -> (wallet: Self)
        ensures
            wallet.wf(),
            wallet.trade_log() == Seq::<Trade>::empty(),
            wallet.sales() == Seq::<SellTrade>::empty(),
            wallet.usd_log() == Seq::<UsdTrade>::empty(),
            forall|c: Seq<char>| #[trigger] wallet.queue(c) == Seq::<HoldingsItem>::empty(),
    {
        Wallet::new()
    }
}

impl Wallet {
    /// The trades taken so far; a trade's position is its index for good.
    pub closed spec fn trade_log(&self) -> Seq<Trade> {
        self.trades@
    }

    /// The realized sales, in the order in which they were made.
    pub closed spec fn sales(&self) -> Seq<SellTrade> {
        self.sell_trades@
    }

    /// The USD sides of the trades taken so far.
    pub closed spec fn usd_log(&self) -> Seq<UsdTrade> {
        self.usd_trades@
    }

    /// The ledger's buckets.
    pub closed spec fn ledger(&self) -> Seq<HoldingsBucket> {
        self.holdings@
    }

    /// The open lots of `currency`, oldest first.
    pub open spec fn queue(&self, currency: Seq<char>) -> Seq<HoldingsItem> {
        queue_in(self.ledger(), currency)
    }

    /// For `currency`, what is open and what was sold add up to what was
    /// acquired, in volume and in cost basis.
    pub open spec fn conserved(&self, currency: Seq<char>) -> bool {
        &&& total_volume(self.queue(currency)) + sold_volume(self.sales(), currency)
            == acquired_volume(self.trade_log(), currency)
        &&& total_cost_basis(self.queue(currency)) + sold_cost(self.sales(), currency)
            == acquired_cost(self.trade_log(), currency)
    }

    /// What holds of the engine between two trades.
    pub open spec fn wf(&self) -> bool {
        &&& well_kept(self.ledger())
        &&& forall|i: int|
            0 <= i < self.trade_log().len() ==> (#[trigger] self.trade_log()[i]).well_formed()
        &&& forall|c: Seq<char>| queue_ok(#[trigger] self.queue(c), c, self.trade_log())
        &&& forall|i: int|
            0 <= i < self.sales().len() ==> sale_ok(#[trigger] self.sales()[i], self.trade_log())
        &&& forall|c: Seq<char>| #[trigger] self.conserved(c)
    }

    /// An engine that has taken no trade.
    pub fn new() -> (wallet: Self)
        ensures
            wallet.wf(),
            wallet.trade_log() == Seq::<Trade>::empty(),
            wallet.sales() == Seq::<SellTrade>::empty(),
            wallet.usd_log() == Seq::<UsdTrade>::empty(),
            forall|c: Seq<char>| #[trigger] wallet.queue(c) == Seq::<HoldingsItem>::empty(),
    {
        let wallet = Wallet {
            trades: Vec::new(),
            sell_trades: Vec::new(),
            usd_trades: Vec::new(),
            holdings: Vec::new(),
        };
        assert forall|c: Seq<char>| #[trigger]
            wallet.queue(c) == Seq::<HoldingsItem>::empty() by {}
        assert forall|c: Seq<char>| #[trigger] wallet.conserved(c) by {
            assert(wallet.queue(c) == Seq::<HoldingsItem>::empty());
        }
        wallet
    }

    /// Conservation: for every currency, the volume in open lots and the
    /// volume in realized sales add up to the volume acquired, and so do the
    /// cost bases.
    pub proof fn lemma_conservation(wallet: Wallet, currency: Seq<char>)
        requires
            wallet.wf(),
        ensures
            total_volume(wallet.queue(currency)) + sold_volume(wallet.sales(), currency)
                == acquired_volume(wallet.trade_log(), currency),
            total_cost_basis(wallet.queue(currency)) + sold_cost(wallet.sales(), currency)
                == acquired_cost(wallet.trade_log(), currency),
    {
        assert(wallet.conserved(currency));
    }

    /// A queue is in the order of acquisition: a lot in front of another was
    /// acquired by an earlier trade, and where the log is in the order of
    /// time, not later in time.
    pub proof fn lemma_queue_in_order(wallet: Wallet, currency: Seq<char>, j: int, k: int)
        requires
            wallet.wf(),
            0 <= j < k < wallet.queue(currency).len(),
        ensures
            wallet.queue(currency)[j].trade_idx < wallet.queue(currency)[k].trade_idx
                < wallet.trade_log().len(),
            chronological(wallet.trade_log()) ==> wallet.trade_log()[wallet.queue(
                currency,
            )[j].trade_idx as int].datetime.millis <= wallet.trade_log()[wallet.queue(
                currency,
            )[k].trade_idx as int].datetime.millis,
    {
        let queue = wallet.queue(currency);
        assert(queue_ok(queue, currency, wallet.trade_log()));
        assert(lot_ok(queue[k], currency, wallet.trade_log()));
        assert(queue[j].trade_idx < queue[k].trade_idx);
    }

    /// The fee of an acquisition is part of the cost basis of its lot.
    pub proof fn lemma_fee_in_cost_basis(trade: Trade, idx: usize)
        requires
            trade.well_formed(),
        ensures
            new_lot(trade, idx).cost_basis == usd_value(
                trade.volume_to as int,
                trade.currency_to_price_usd as int,
            ) + trade.spec_fees_usd(),
    {
        lemma_acquisition_cost_bounds(trade);
    }

    /// A good state stays good through a trade that it can serve.
    pub proof fn lemma_step_keeps_wf(before: Wallet, after: Wallet, trade: Trade)
        requires
            before.wf(),
            trade.well_formed(),
            before.trade_log().len() <= usize::MAX,
            well_kept(after.ledger()),
            after.trade_log() == before.trade_log().push(trade),
            after.sales() == sales_after(
                before.sales(),
                before.queue(trade.currency_from@),
                before.trade_log(),
                trade,
            ),
            forall|c: Seq<char>| #[trigger]
                after.queue(c) == queue_after(
                    before.queue(c),
                    c,
                    trade,
                    before.trade_log().len() as usize,
                ),
        ensures
            after.wf(),
    {
        let trades = before.trade_log();
        let later = after.trade_log();
        let idx = trades.len() as usize;
        let from = trade.currency_from@;
        let slices = slices_sold(before.queue(from), trade.volume_from as int);
        let batch = sales_from(slices, trades, trade, idx);
        assert forall|i: int| 0 <= i < later.len() implies (#[trigger] later[i]).well_formed() by {
            if i < trades.len() {
                assert(later[i] == trades[i]);
                assert(trades[i].well_formed());
            }
        }
        assert forall|c: Seq<char>| queue_ok(#[trigger] after.queue(c), c, later) by {
            assert(queue_ok(before.queue(c), c, trades));
            lemma_queue_ok_after(before.queue(c), c, trade, trades, idx);
        }
        if !is_usd(from) {
            assert(queue_ok(before.queue(from), from, trades));
            lemma_new_sales_ok(before.queue(from), trade, trades, idx);
        }
        assert forall|i: int| 0 <= i < after.sales().len() implies sale_ok(
            #[trigger] after.sales()[i],
            later,
        ) by {
            if i < before.sales().len() {
                let sale = before.sales()[i];
                assert(after.sales()[i] == sale);
                assert(sale_ok(sale, trades));
                assert(later[sale.buy_trade_idx as int] == trades[sale.buy_trade_idx as int]);
                assert(later[sale.sell_trade_idx as int] == trades[sale.sell_trade_idx as int]);
            } else {
                assert(after.sales()[i] == batch[i - before.sales().len()]);
            }
        }
        assert forall|c: Seq<char>| #[trigger] after.conserved(c) by {
            assert(before.conserved(c));
            lemma_acquired_of_push(trades, trade, c);
            if acquires(trade, c) {
                lemma_acquisition_cost_bounds(trade);
                let drained = if disposes(trade, c) {
                    lots_after(before.queue(c), trade.volume_from as int)
                } else {
                    before.queue(c)
                };
                lemma_totals_of_push(drained, new_lot(trade, idx));
            }
            if disposes(trade, c) {
                lemma_disposal_conserves(before.queue(c), trade.volume_from as int);
            }
            if !is_usd(from) {
                lemma_sold_of_batch(before.sales(), slices, trades, trade, idx, c);
            }
        }
    }

    /// Takes the next trade of the log.
    ///
    /// Unless the trade gives USD, it is a disposal: the oldest open lots of
    /// the currency given are drained, and each lot touched gives one realized
    /// sale. Unless the trade takes USD, it is an acquisition: a new lot goes
    /// to the end of the queue of the currency taken. A disposal that the
    /// open lots cannot serve is refused, and nothing changes.
    pub fn add_trade(&mut self, trade: Trade) -> (result: Result<(), WalletError>)
        requires
            old(self).wf(),
            trade.well_formed(),
        ensures
            final(self).wf(),
            result is Ok <==> can_dispose(old(self).queue(trade.currency_from@), trade),
            result is Ok ==> {
                &&& final(self).trade_log() == old(self).trade_log().push(trade)
                &&& final(self).sales() == sales_after(
                    old(self).sales(),
                    old(self).queue(trade.currency_from@),
                    old(self).trade_log(),
                    trade,
                )
                &&& final(self).usd_log() == usd_log_after(old(self).usd_log(), trade)
                &&& forall|c: Seq<char>| #[trigger]
                    final(self).queue(c) == queue_after(
                        old(self).queue(c),
                        c,
                        trade,
                        old(self).trade_log().len() as usize,
                    )
            },
            result matches Err(e) ==> {
                &&& *final(self) == *old(self)
                &&& e == (WalletError::InsufficientHoldings {
                    trade_idx: old(self).trade_log().len() as usize,
                    currency: trade.currency_from,
                    shortfall: (trade.volume_from - total_volume(
                        old(self).queue(trade.currency_from@),
                    )) as u64,
                })
            },
    {
        let ghost before = *self;
        let ghost from = trade.currency_from@;
        let idx = self.trades.len();
        if !currency_is_usd(&trade.currency_from) {
            let found = find_bucket(&self.holdings, &trade.currency_from);
            let available: u128 = match found {
                Some(at) => {
                    proof {
                        lemma_queue_at(self.holdings@, at as int);
                    }
                    totals(&self.holdings[at].items).0
                },
                None => 0,
            };
            proof {
                lemma_totals_bounded(before.queue(from));
                if let Some(at) = found {
                    lemma_queue_at(self.holdings@, at as int);
                    assert(before.queue(from) == self.holdings@[at as int].items@);
                    assert(self.holdings@[at as int].items.len() <= usize::MAX);
                }
                assert(before.queue(from).len() * u64::MAX <= usize::MAX * u64::MAX)
                    by (nonlinear_arith)
                    requires
                        before.queue(from).len() <= usize::MAX,
                ;
                assert(usize::MAX * u64::MAX <= u64::MAX * u64::MAX) by (nonlinear_arith)
                    requires
                        usize::MAX <= u64::MAX,
                ;
            }
            assert(available == total_volume(before.queue(from)));
            if found.is_none() || available + (EPS as u128) < trade.volume_from as u128 {
                let shortfall = (trade.volume_from as u128 - available) as u64;
                return Err(
                    WalletError::InsufficientHoldings {
                        trade_idx: idx,
                        currency: trade.currency_from.clone(),
                        shortfall,
                    },
                );
            }
            let at = found.unwrap();
            proof {
                assert(queue_ok(before.queue(from), from, before.trade_log()));
                lemma_new_sales_ok(before.queue(from), trade, before.trade_log(), idx);
            }
            self.usd_trades.push(UsdTrade::new(&trade, false));
            let sold = drain(&mut self.holdings, at, trade.volume_from);
            record_sales(&mut self.sell_trades, &sold, &self.trades, &trade);
        }
        let ghost drained = self.holdings@;
        if !currency_is_usd(&trade.currency_to) {
            self.usd_trades.push(UsdTrade::new(&trade, true));
            let lot = HoldingsItem {
                volume: trade.volume_to,
                cost_basis: trade.acquisition_cost(),
                trade_idx: idx,
            };
            deposit(&mut self.holdings, trade.currency_to.clone(), lot);
        }
        self.trades.push(trade);
        proof {
            assert forall|c: Seq<char>| #[trigger]
                self.queue(c) == queue_after(before.queue(c), c, trade, idx) by {
                assert(queue_in(drained, c) == if disposes(trade, c) {
                    lots_after(before.queue(c), trade.volume_from as int)
                } else {
                    before.queue(c)
                });
            }
            Self::lemma_step_keeps_wf(before, *self, trade);
        }
        Ok(())
    }

    /// Sums the realized sales made in the window `[dt_from, dt_to)`, by
    /// holding period and currency.
    pub fn proceeds(&self, dt_from: &Timestamp, dt_to: &Timestamp) -> (result: Result<
        Proceeds,
        ProceedsError,
    >)
        requires
            self.wf(),
        ensures
            is_aggregate_of(result, self.sales(), *dt_from, *dt_to),
    {
        proof {
            let sales = self.sell_trades@;
            assert forall|i: int| 0 <= i < sales.len() implies (#[trigger] sales[i]).in_range() by {
                assert(sale_ok(self.sales()[i], self.trade_log()));
            }
            assert(all_in_range(sales));
        }
        aggregate(&self.sell_trades, dt_from, dt_to)
    }

    /// Reports what is held: one summary per currency, largest cost basis
    /// first.
    pub fn snapshot(&self) -> (report: Vec<HoldingsSummary>)
        requires
            self.wf(),
        ensures
            reports(report@, self.ledger()),
            forall|i: int|
                0 <= i < report@.len() ==> (#[trigger] report@[i]).lots@.len() > 0
                    && report@[i].total_volume > 0,
    {
        let report = snapshot(&self.holdings);
        proof {
            let ledger = self.holdings@;
            assert forall|i: int| 0 <= i < report@.len() implies (#[trigger] report@[i]).lots@.len()
                > 0 && report@[i].total_volume > 0 by {
                assert(has_source(report@[i], ledger));
                let k = choose|k: int|
                    0 <= k < ledger.len() && summarizes(report@[i], #[trigger] ledger[k]);
                reveal(summarizes);
                let lots = ledger[k].items@;
                lemma_queue_at(ledger, k);
                assert(queue_ok(
                    self.queue(ledger[k].currency@),
                    ledger[k].currency@,
                    self.trade_log(),
                ));
                assert(lot_ok(lots[0], ledger[k].currency@, self.trade_log()));
                lemma_totals_bounded(lots.drop_first());
            }
        }
        report
    }

    /// When each trade was made, in the order of the log.
    pub open spec fn trade_times(&self) -> Seq<Timestamp> {
        Seq::new(self.trade_log().len(), |i: int| self.trade_log()[i].datetime)
    }

    /// When each realized sale was made, in the order of the sales.
    pub open spec fn sale_times(&self) -> Seq<Timestamp> {
        Seq::new(self.sales().len(), |i: int| self.sales()[i].sell_datetime)
    }

    /// When each USD side was made, in the order of the sides.
    pub open spec fn usd_times(&self) -> Seq<Timestamp> {
        Seq::new(self.usd_log().len(), |i: int| self.usd_log()[i].datetime)
    }

    /// The indices of the trades made in the window `[dt_from, dt_to)`.
    pub fn trades_within(&self, dt_from: &Timestamp, dt_to: &Timestamp) -> (picked: Vec<usize>)
        requires
            dt_from.millis < dt_to.millis,
        ensures
            is_selection(picked@, self.trade_times(), *dt_from, *dt_to),
    {
        let mut times: Vec<Timestamp> = Vec::new();
        let mut i: usize = 0;
        while i < self.trades.len()
            invariant
                i <= self.trades.len(),
                times@ == self.trade_times().take(i as int),
            decreases self.trades.len() - i,
        {
            times.push(self.trades[i].datetime);
            assert(times@ =~= self.trade_times().take(i + 1));
            i += 1;
        }
        assert(times@ =~= self.trade_times());
        indices_within(&times, dt_from, dt_to)
    }

    /// The indices of the realized sales made in the window
    /// `[dt_from, dt_to)`.
    pub fn sell_trades_within(&self, dt_from: &Timestamp, dt_to: &Timestamp) -> (picked: Vec<
        usize,
    >)
        requires
            dt_from.millis < dt_to.millis,
        ensures
            is_selection(picked@, self.sale_times(), *dt_from, *dt_to),
    {
        let mut times: Vec<Timestamp> = Vec::new();
        let mut i: usize = 0;
        while i < self.sell_trades.len()
            invariant
                i <= self.sell_trades.len(),
                times@ == self.sale_times().take(i as int),
            decreases self.sell_trades.len() - i,
        {
            times.push(self.sell_trades[i].sell_datetime);
            assert(times@ =~= self.sale_times().take(i + 1));
            i += 1;
        }
        assert(times@ =~= self.sale_times());
        indices_within(&times, dt_from, dt_to)
    }

    /// The indices of the USD sides made in the window `[dt_from, dt_to)`.
    pub fn usd_trades_within(&self, dt_from: &Timestamp, dt_to: &Timestamp) -> (picked: Vec<
        usize,
    >)
        requires
            dt_from.millis < dt_to.millis,
        ensures
            is_selection(picked@, self.usd_times(), *dt_from, *dt_to),
    {
        let mut times: Vec<Timestamp> = Vec::new();
        let mut i: usize = 0;
        while i < self.usd_trades.len()
            invariant
                i <= self.usd_trades.len(),
                times@ == self.usd_times().take(i as int),
            decreases self.usd_trades.len() - i,
        {
            times.push(self.usd_trades[i].datetime);
            assert(times@ =~= self.usd_times().take(i + 1));
            i += 1;
        }
        assert(times@ =~= self.usd_times());
        indices_within(&times, dt_from, dt_to)
    }

    /// The trades taken so far.
    pub fn trades(&self) -> (trades: &Vec<Trade>)
        ensures
            trades@ == self.trade_log(),
    {
        &self.trades
    }

    /// The realized sales made so far.
    pub fn sell_trades(&self) -> (sales: &Vec<SellTrade>)
        ensures
            sales@ == self.sales(),
    {
        &self.sell_trades
    }

    /// The USD sides of the trades taken so far.
    pub fn usd_trades(&self) -> (sides: &Vec<UsdTrade>)
        ensures
            sides@ == self.usd_log(),
    {
        &self.usd_trades
    }

    /// The ledger of open lots, one bucket per currency held.
    pub fn holdings(&self) -> (buckets: &Vec<HoldingsBucket>)
        ensures
            buckets@ == self.ledger(),
    {
        &self.holdings
    }
}

} // verus!
