//! The queue of open lots of one currency, oldest first, and how a disposal
//! drains it.

use vstd::prelude::*;

use crate::amount::EPS;
use crate::model::trade::lemma_share_below;

verus! {

/// A lot: a quantity still held, what it cost, and the trade that acquired
/// it. The same record describes a slice taken out of a lot by a disposal.
#[derive(Clone, Copy, Debug, PartialEq, Eq, Structural)]
pub struct HoldingsItem {
    pub volume: u64,
    pub cost_basis: u64,
    pub trade_idx: usize,
}

/// Sum of the lots' volumes.
pub open spec fn total_volume(lots: Seq<HoldingsItem>) -> int
    decreases lots.len(),
{
    if lots.len() == 0 {
        0
    } else {
        lots[0].volume + total_volume(lots.drop_first())
    }
}

/// Sum of the lots' cost bases.
pub open spec fn total_cost_basis(lots: Seq<HoldingsItem>) -> int
    decreases lots.len(),
{
    if lots.len() == 0 {
        0
    } else {
        lots[0].cost_basis + total_cost_basis(lots.drop_first())
    }
}

/// Every lot holds something.
pub open spec fn all_positive(lots: Seq<HoldingsItem>) -> bool {
    forall|i: int| 0 <= i < lots.len() ==> (#[trigger] lots[i]).volume > 0
}

/// The queue holds `volume`, up to the tolerance.
pub open spec fn covers(lots: Seq<HoldingsItem>, volume: int) -> bool {
    total_volume(lots) + EPS >= volume
}

/// Whether selling `remaining` from `lot` leaves part of it: the lot exceeds
/// what is asked by more than the tolerance.
pub open spec fn is_partial(lot: HoldingsItem, remaining: int) -> bool {
    lot.volume > remaining + EPS
}

/// Cost basis that goes with `volume` taken out of `lot`: the same
/// proportion of its cost basis.
pub open spec fn partial_cost(lot: HoldingsItem, volume: int) -> int {
    (lot.cost_basis * volume) / (lot.volume as int)
}

/// The slice of `volume` taken out of `lot`.
pub open spec fn slice_taken(lot: HoldingsItem, volume: int) -> HoldingsItem {
    HoldingsItem {
        volume: volume as u64,
        cost_basis: partial_cost(lot, volume) as u64,
        trade_idx: lot.trade_idx,
    }
}

/// What is left of `lot` after `volume` was taken out of it.
pub open spec fn residual(lot: HoldingsItem, volume: int) -> HoldingsItem {
    HoldingsItem {
        volume: (lot.volume - volume) as u64,
        cost_basis: (lot.cost_basis - partial_cost(lot, volume)) as u64,
        trade_idx: lot.trade_idx,
    }
}

/// The slices that disposing of `remaining` takes from the queue, oldest
/// lot first. A lot is taken whole unless it exceeds what is still asked by
/// more than the tolerance; then only what is asked is taken, and the disposal
/// is done.
pub open spec fn slices_sold(lots: Seq<HoldingsItem>, remaining: int) -> Seq<HoldingsItem>
    decreases lots.len(),
{
    if remaining <= EPS || lots.len() == 0 {
        Seq::empty()
    } else if is_partial(lots[0], remaining) {
        seq![slice_taken(lots[0], remaining)]
    } else {
        seq![lots[0]] + slices_sold(lots.drop_first(), remaining - lots[0].volume)
    }
}

/// The queue after disposing of `remaining`: lots taken whole are gone, a
/// lot taken in part stays in front with its residual.
pub open spec fn lots_after(lots: Seq<HoldingsItem>, remaining: int) -> Seq<HoldingsItem>
    decreases lots.len(),
{
    if remaining <= EPS || lots.len() == 0 {
        lots
    } else if is_partial(lots[0], remaining) {
        lots.update(0, residual(lots[0], remaining))
    } else {
        lots_after(lots.drop_first(), remaining - lots[0].volume)
    }
}

/// Taking `volume` out of a larger lot splits both its volume and its cost
/// basis without loss.
pub proof fn lemma_split_is_exact(lot: HoldingsItem, volume: int)
    requires
        0 <= volume < lot.volume,
    ensures
        slice_taken(lot, volume).volume == volume,
        0 <= partial_cost(lot, volume) <= lot.cost_basis,
        slice_taken(lot, volume).cost_basis == partial_cost(lot, volume),
        slice_taken(lot, volume).volume + residual(lot, volume).volume == lot.volume,
        slice_taken(lot, volume).cost_basis + residual(lot, volume).cost_basis == lot.cost_basis,
        residual(lot, volume).volume > 0,
{
    lemma_share_below(lot.cost_basis as int, volume, lot.volume as int);
}

/// Volume and cost basis are conserved by a disposal: what is sold and what
/// stays add up to what was there.
pub proof fn lemma_disposal_conserves(lots: Seq<HoldingsItem>, remaining: int)
    ensures
        total_volume(lots_after(lots, remaining)) + total_volume(slices_sold(lots, remaining))
            == total_volume(lots),
        total_cost_basis(lots_after(lots, remaining)) + total_cost_basis(
            slices_sold(lots, remaining),
        ) == total_cost_basis(lots),
    decreases lots.len(),
{
    if remaining <= EPS || lots.len() == 0 {
        assert(total_volume(Seq::<HoldingsItem>::empty()) == 0);
        assert(total_cost_basis(Seq::<HoldingsItem>::empty()) == 0);
    } else if is_partial(lots[0], remaining) {
        let taken = slice_taken(lots[0], remaining);
        let left = residual(lots[0], remaining);
        lemma_split_is_exact(lots[0], remaining);
        let after = lots.update(0, left);
        assert(after.drop_first() =~= lots.drop_first());
        let sold = seq![taken];
        assert(sold.drop_first() =~= Seq::<HoldingsItem>::empty());
        assert(total_volume(sold.drop_first()) == 0);
        assert(total_cost_basis(sold.drop_first()) == 0);
        assert(total_volume(sold) == taken.volume);
        assert(total_cost_basis(sold) == taken.cost_basis);
    } else {
        let rest = lots.drop_first();
        let less = remaining - lots[0].volume;
        lemma_disposal_conserves(rest, less);
        let sold = seq![lots[0]] + slices_sold(rest, less);
        assert(sold.drop_first() =~= slices_sold(rest, less));
    }
}

/// First in, first out: a disposal takes its slices from the front of the
/// queue, one per lot and in the queue's order. Every lot it touches but the
/// last is taken whole and leaves the queue; only the last may stay, with its
/// residual in front; the lots behind are as they were.
pub proof fn lemma_fifo_order(lots: Seq<HoldingsItem>, remaining: int)
    ensures
        ({
            let sold = slices_sold(lots, remaining);
            let after = lots_after(lots, remaining);
            let gone = lots.len() - after.len();
            &&& 0 <= gone <= sold.len() <= gone + 1
            &&& sold.len() <= lots.len()
            &&& forall|j: int| 0 <= j < gone ==> #[trigger] sold[j] == lots[j]
            &&& forall|j: int|
                0 <= j < sold.len() ==> (#[trigger] sold[j]).trade_idx == lots[j].trade_idx
                    && sold[j].volume <= lots[j].volume && sold[j].cost_basis
                    <= lots[j].cost_basis
            &&& forall|j: int| 1 <= j < after.len() ==> #[trigger] after[j] == lots[gone + j]
            &&& sold.len() == gone ==> after == lots.skip(gone)
            &&& sold.len() == gone + 1 ==> {
                &&& after.len() > 0
                &&& after[0].trade_idx == lots[gone].trade_idx
                &&& after[0].volume > EPS
                &&& after[0].volume + sold[gone].volume == lots[gone].volume
                &&& after[0].cost_basis + sold[gone].cost_basis == lots[gone].cost_basis
            }
        }),
    decreases lots.len(),
{
    let sold = slices_sold(lots, remaining);
    let after = lots_after(lots, remaining);
    if remaining <= EPS || lots.len() == 0 {
        assert(after =~= lots.skip(0));
    } else if is_partial(lots[0], remaining) {
        lemma_split_is_exact(lots[0], remaining);
    } else {
        let rest = lots.drop_first();
        let less = remaining - lots[0].volume;
        lemma_fifo_order(rest, less);
        let sold_rest = slices_sold(rest, less);
        let gone = lots.len() - after.len();
        assert(sold =~= seq![lots[0]] + sold_rest);
        assert forall|j: int| 0 <= j < gone implies #[trigger] sold[j] == lots[j] by {
            if j > 0 {
                assert(sold[j] == sold_rest[j - 1]);
                assert(rest[j - 1] == lots[j]);
            }
        }
        assert forall|j: int| 0 <= j < sold.len() implies (#[trigger] sold[j]).trade_idx
            == lots[j].trade_idx && sold[j].volume <= lots[j].volume && sold[j].cost_basis
            <= lots[j].cost_basis by {
            if j > 0 {
                assert(sold[j] == sold_rest[j - 1]);
                assert(rest[j - 1] == lots[j]);
            }
        }
        assert forall|j: int| 1 <= j < after.len() implies #[trigger] after[j] == lots[gone
            + j] by {
            assert(rest[gone - 1 + j] == lots[gone + j]);
        }
        if sold.len() == gone {
            assert(after =~= lots.skip(gone));
        } else {
            assert(sold[gone] == sold_rest[gone - 1]);
            assert(rest[gone - 1] == lots[gone]);
        }
    }
}

/// No slice of a disposal is larger than what was asked, up to the
/// tolerance.
pub proof fn lemma_slices_within(lots: Seq<HoldingsItem>, remaining: int)
    ensures
        forall|j: int|
            0 <= j < slices_sold(lots, remaining).len() ==> (#[trigger] slices_sold(
                lots,
                remaining,
            )[j]).volume <= remaining + EPS,
    decreases lots.len(),
{
    let sold = slices_sold(lots, remaining);
    if remaining <= EPS || lots.len() == 0 {
    } else if is_partial(lots[0], remaining) {
        lemma_split_is_exact(lots[0], remaining);
    } else {
        let rest = lots.drop_first();
        let less = remaining - lots[0].volume;
        lemma_slices_within(rest, less);
        let sold_rest = slices_sold(rest, less);
        assert forall|j: int| 0 <= j < sold.len() implies (#[trigger] sold[j]).volume
            <= remaining + EPS by {
            if j > 0 {
                assert(sold[j] == sold_rest[j - 1]);
            }
        }
    }
}

/// A disposal from a queue that covers it sells what was asked, up to the
/// tolerance.
pub proof fn lemma_disposal_matches(lots: Seq<HoldingsItem>, remaining: int)
    requires
        covers(lots, remaining),
        remaining >= -EPS,
    ensures
        -EPS <= remaining - total_volume(slices_sold(lots, remaining)) <= EPS,
    decreases lots.len(),
{
    if remaining <= EPS || lots.len() == 0 {
        assert(total_volume(Seq::<HoldingsItem>::empty()) == 0);
    } else if is_partial(lots[0], remaining) {
        lemma_split_is_exact(lots[0], remaining);
        let sold = seq![slice_taken(lots[0], remaining)];
        assert(sold.drop_first() =~= Seq::<HoldingsItem>::empty());
        assert(total_volume(sold.drop_first()) == 0);
    } else {
        let rest = lots.drop_first();
        let less = remaining - lots[0].volume;
        lemma_disposal_matches(rest, less);
        let sold = seq![lots[0]] + slices_sold(rest, less);
        assert(sold.drop_first() =~= slices_sold(rest, less));
    }
}

/// The sums of a queue joined from two parts are the sums of the parts.
pub proof fn lemma_totals_of_concat(front: Seq<HoldingsItem>, back: Seq<HoldingsItem>)
    ensures
        total_volume(front + back) == total_volume(front) + total_volume(back),
        total_cost_basis(front + back) == total_cost_basis(front) + total_cost_basis(back),
    decreases front.len(),
{
    if front.len() == 0 {
        assert(front + back =~= back);
    } else {
        lemma_totals_of_concat(front.drop_first(), back);
        assert((front + back).drop_first() =~= front.drop_first() + back);
    }
}

/// The sums of a queue with one more lot at its end.
pub proof fn lemma_totals_of_push(lots: Seq<HoldingsItem>, lot: HoldingsItem)
    ensures
        total_volume(lots.push(lot)) == total_volume(lots) + lot.volume,
        total_cost_basis(lots.push(lot)) == total_cost_basis(lots) + lot.cost_basis,
{
    let one = seq![lot];
    assert(one.drop_first() =~= Seq::<HoldingsItem>::empty());
    assert(total_volume(one.drop_first()) == 0);
    assert(total_cost_basis(one.drop_first()) == 0);
    lemma_totals_of_concat(lots, one);
    assert(lots.push(lot) =~= lots + one);
}

/// The sums of a queue are bounded by its length.
pub proof fn lemma_totals_bounded(lots: Seq<HoldingsItem>)
    ensures
        0 <= total_volume(lots) <= lots.len() * u64::MAX,
        0 <= total_cost_basis(lots) <= lots.len() * u64::MAX,
    decreases lots.len(),
{
    if lots.len() > 0 {
        lemma_totals_bounded(lots.drop_first());
        assert((lots.len() - 1) * u64::MAX + u64::MAX == lots.len() * u64::MAX)
            by (nonlinear_arith);
    }
}

/// Computes [`total_volume`] and [`total_cost_basis`].
pub fn totals(lots: &Vec<HoldingsItem>) -> (sums: (u128, u128))
    ensures
        sums.0 == total_volume(lots@),
        sums.1 == total_cost_basis(lots@),
{
    let mut volume: u128 = 0;
    let mut cost_basis: u128 = 0;
    let mut i: usize = 0;
    assert(lots@.take(0) =~= Seq::<HoldingsItem>::empty());
    while i < lots.len()
        invariant
            i <= lots.len(),
            volume == total_volume(lots@.take(i as int)),
            cost_basis == total_cost_basis(lots@.take(i as int)),
        decreases lots.len() - i,
    {
        proof {
            lemma_totals_of_push(lots@.take(i as int), lots@[i as int]);
            assert(lots@.take(i + 1) =~= lots@.take(i as int).push(lots@[i as int]));
            lemma_totals_bounded(lots@.take(i + 1));
            assert((i + 1) * u64::MAX <= usize::MAX * u64::MAX) by (nonlinear_arith)
                requires
                    i + 1 <= usize::MAX,
            ;
            assert(usize::MAX * u64::MAX <= u64::MAX * u64::MAX) by (nonlinear_arith)
                requires
                    usize::MAX <= u64::MAX,
            ;
        }
        volume = volume + lots[i].volume as u128;
        cost_basis = cost_basis + lots[i].cost_basis as u128;
        i += 1;
    }
    assert(lots@.take(lots.len() as int) =~= lots@);
    (volume, cost_basis)
}

/// The queue behind the first `consumed` lots begins with the next lot and
/// goes on with the queue behind that one.
proof fn lemma_step(lots: Seq<HoldingsItem>, consumed: int)
    requires
        0 <= consumed < lots.len(),
    ensures
        lots.skip(consumed).drop_first() == lots.skip(consumed + 1),
        lots.skip(consumed)[0] == lots[consumed],
        total_volume(lots.skip(consumed)) == lots[consumed].volume + total_volume(
            lots.skip(consumed + 1),
        ),
{
    assert(lots.skip(consumed).drop_first() =~= lots.skip(consumed + 1));
}

/// Disposes of `volume` from the queue, oldest lot first, and returns the
/// slices taken, one per lot touched.
pub fn dispose(lots: &mut Vec<HoldingsItem>, volume: u64) -> (sold: Vec<HoldingsItem>)
    requires
        all_positive(old(lots)@),
        covers(old(lots)@, volume as int),
    ensures
        final(lots)@ == lots_after(old(lots)@, volume as int),
        sold@ == slices_sold(old(lots)@, volume as int),
{
    let ghost before = lots@;
    let mut sold: Vec<HoldingsItem> = Vec::new();
    let mut remaining: u64 = volume;
    let ghost mut asked: int = volume as int;
    let mut consumed: usize = 0;
    assert(before.skip(0) =~= before);
    while remaining > EPS
        invariant_except_break
            lots@ == before,
            remaining == (if asked > 0 {
                asked
            } else {
                0
            }),
            covers(before.skip(consumed as int), asked),
            lots_after(before, volume as int) == lots_after(before.skip(consumed as int), asked),
            slices_sold(before, volume as int) == sold@ + slices_sold(
                before.skip(consumed as int),
                asked,
            ),
        invariant
            consumed <= before.len(),
            before.len() == lots.len(),
            all_positive(before),
        ensures
            consumed <= lots.len(),
            lots@.skip(consumed as int) == lots_after(before, volume as int),
            sold@ == slices_sold(before, volume as int),
        decreases before.len() - consumed,
    {
        proof {
            if consumed == before.len() {
                assert(before.skip(consumed as int).len() == 0);
            } else {
                lemma_step(before, consumed as int);
            }
        }
        let lot = lots[consumed];
        let ghost queue = before.skip(consumed as int);
        if lot.volume > remaining && lot.volume - remaining > EPS {
            assert(is_partial(queue[0], asked));
            proof {
                lemma_split_is_exact(lot, asked);
            }
            assert(lot.cost_basis * remaining <= u64::MAX * u64::MAX) by (nonlinear_arith)
                requires
                    lot.cost_basis <= u64::MAX,
                    remaining <= u64::MAX,
            ;
            let cost: u64 = (((lot.cost_basis as u128) * (remaining as u128)) / (
            lot.volume as u128)) as u64;
            let left = HoldingsItem {
                volume: lot.volume - remaining,
                cost_basis: lot.cost_basis - cost,
                trade_idx: lot.trade_idx,
            };
            lots[consumed] = left;
            let ghost earlier = sold@;
            sold.push(HoldingsItem { volume: remaining, cost_basis: cost, trade_idx: lot.trade_idx });
            assert(sold@ =~= earlier + seq![slice_taken(lot, asked)]);
            assert(lots@.skip(consumed as int) =~= queue.update(0, residual(lot, asked)));
            break ;
        } else {
            assert(!is_partial(queue[0], asked));
            let ghost earlier = sold@;
            sold.push(lot);
            remaining = if lot.volume >= remaining {
                0
            } else {
                remaining - lot.volume
            };
            proof {
                assert(earlier.push(lot) + slices_sold(
                    before.skip(consumed + 1),
                    asked - lot.volume,
                ) =~= earlier + (seq![lot] + slices_sold(
                    before.skip(consumed + 1),
                    asked - lot.volume,
                )));
                asked = asked - lot.volume;
            }
            consumed += 1;
        }
    }
    let rest = lots.split_off(consumed);
    assert(rest@ =~= lots_after(before, volume as int));
    *lots = rest;
    sold
}

} // verus!
