//! Proceeds by holding period: the realized sales of a time window, summed
//! per currency for long-term and for short-term sales.

use vstd::prelude::*;

use crate::amount::MAX_USD_VALUE;
use crate::model::lexical::{is_name_before, lemma_bytes_transitive, lemma_names_ordered, name_before};
use crate::model::sell_trade::{SellTrade, MAX_PROCEEDS};
use crate::model::Currency;
use crate::utils::time_utils::{is_datetime_within_limits, within_limits, Timestamp};
use vstd::utf8::encode_utf8;

verus! {

/// Sums over realized sales.
#[derive(Clone, Copy, Debug, PartialEq, Eq, Structural)]
pub struct ProceedsInfo {
    pub volume: u128,
    pub proceeds: i128,
    pub cost_basis: u128,
    pub gain: i128,
}

/// The sums of one currency.
#[derive(Debug)]
pub struct CurrencyProceeds {
    pub currency: Currency,
    pub info: ProceedsInfo,
}

/// The sums of one holding period: per currency, in the order of the
/// currencies' names, and over all currencies.
#[derive(Debug)]
pub struct TermProceeds {
    pub by_currency: Vec<CurrencyProceeds>,
    pub totals: ProceedsInfo,
}

/// The proceeds of a time window.
#[derive(Debug)]
pub struct Proceeds {
    pub long_term: TermProceeds,
    pub short_term: TermProceeds,
}

/// Why no proceeds were computed.
#[derive(Debug)]
pub enum ProceedsError {
    /// The window does not start before it ends.
    InvalidWindow,
    /// The calendar cannot say whether the sale number `sale_idx`, which
    /// lies in the window, is long term.
    Unclassified { sale_idx: usize },
}

/// The sums as numbers without bounds.
pub struct Sums {
    pub volume: int,
    pub proceeds: int,
    pub cost_basis: int,
    pub gain: int,
}

/// The sums of no sale.
pub open spec fn no_sums() -> Sums {
    Sums { volume: 0, proceeds: 0, cost_basis: 0, gain: 0 }
}

/// `sums` with one more sale.
pub open spec fn with_sale(sums: Sums, sale: SellTrade) -> Sums {
    Sums {
        volume: sums.volume + sale.volume,
        proceeds: sums.proceeds + sale.proceeds,
        cost_basis: sums.cost_basis + sale.cost_basis,
        gain: sums.gain + sale.spec_gain(),
    }
}

/// `info` holds exactly `sums`.
pub open spec fn info_is(info: ProceedsInfo, sums: Sums) -> bool {
    &&& info.volume == sums.volume
    &&& info.proceeds == sums.proceeds
    &&& info.cost_basis == sums.cost_basis
    &&& info.gain == sums.gain
}

/// The sale was made in the window `[from, to)` and is of the holding
/// period asked for.
pub open spec fn counts(sale: SellTrade, from: Timestamp, to: Timestamp, long_term: bool) -> bool {
    within_limits(sale.sell_datetime, from, to) && sale.spec_is_long_term() == Some(long_term)
}

/// The sale was made in the window, and the calendar cannot say of which
/// holding period it is.
pub open spec fn unclassified(sale: SellTrade, from: Timestamp, to: Timestamp) -> bool {
    within_limits(sale.sell_datetime, from, to) && sale.spec_is_long_term() is None
}

/// The sale counts and is of `currency`, where one is given.
pub open spec fn selected(
    sale: SellTrade,
    from: Timestamp,
    to: Timestamp,
    long_term: bool,
    currency: Option<Seq<char>>,
) -> bool {
    counts(sale, from, to, long_term) && match currency {
        Some(c) => sale.currency@ == c,
        None => true,
    }
}

/// The sums of the selected sales.
pub open spec fn sums_of(
    sales: Seq<SellTrade>,
    from: Timestamp,
    to: Timestamp,
    long_term: bool,
    currency: Option<Seq<char>>,
) -> Sums
    decreases sales.len(),
{
    if sales.len() == 0 {
        no_sums()
    } else {
        let earlier = sums_of(sales.drop_last(), from, to, long_term, currency);
        if selected(sales.last(), from, to, long_term, currency) {
            with_sale(earlier, sales.last())
        } else {
            earlier
        }
    }
}

/// Some sale of `currency` counts.
pub open spec fn occurs(
    sales: Seq<SellTrade>,
    from: Timestamp,
    to: Timestamp,
    long_term: bool,
    currency: Seq<char>,
) -> bool {
    exists|i: int|
        0 <= i < sales.len() && selected(#[trigger] sales[i], from, to, long_term, Some(currency))
}

/// The entries are in the order of their currencies' names, none twice.
pub open spec fn sorted(entries: Seq<CurrencyProceeds>) -> bool {
    forall|i: int, j: int|
        0 <= i < j < entries.len() ==> name_before(
            (#[trigger] entries[i]).currency@,
            (#[trigger] entries[j]).currency@,
        )
}

/// Some entry is the entry of `currency`.
pub open spec fn has_entry(entries: Seq<CurrencyProceeds>, currency: Seq<char>) -> bool {
    exists|i: int| 0 <= i < entries.len() && (#[trigger] entries[i]).currency@ == currency
}

/// The entry is of a currency that occurs and holds its sums.
pub open spec fn entry_ok(
    entry: CurrencyProceeds,
    sales: Seq<SellTrade>,
    from: Timestamp,
    to: Timestamp,
    long_term: bool,
) -> bool {
    &&& occurs(sales, from, to, long_term, entry.currency@)
    &&& info_is(entry.info, sums_of(sales, from, to, long_term, Some(entry.currency@)))
}

/// `term` is what `sales` give for one holding period: one entry for each
/// currency that occurs and for no other, in the order of the names, each with
/// the sums of its currency; and the sums over all.
pub open spec fn term_ok(
    term: TermProceeds,
    sales: Seq<SellTrade>,
    from: Timestamp,
    to: Timestamp,
    long_term: bool,
) -> bool {
    &&& sorted(term.by_currency@)
    &&& forall|i: int|
        0 <= i < term.by_currency@.len() ==> entry_ok(
            #[trigger] term.by_currency@[i],
            sales,
            from,
            to,
            long_term,
        )
    &&& forall|c: Seq<char>| #[trigger]
        occurs(sales, from, to, long_term, c) ==> has_entry(term.by_currency@, c)
    &&& info_is(term.totals, sums_of(sales, from, to, long_term, None))
}

/// Every sale is in range.
pub open spec fn all_in_range(sales: Seq<SellTrade>) -> bool {
    forall|i: int| 0 <= i < sales.len() ==> (#[trigger] sales[i]).in_range()
}

/// The sums with one more sale at the end.
pub proof fn lemma_sums_of_push(
    sales: Seq<SellTrade>,
    sale: SellTrade,
    from: Timestamp,
    to: Timestamp,
    long_term: bool,
    currency: Option<Seq<char>>,
)
    ensures
        sums_of(sales.push(sale), from, to, long_term, currency) == if selected(
            sale,
            from,
            to,
            long_term,
            currency,
        ) {
            with_sale(sums_of(sales, from, to, long_term, currency), sale)
        } else {
            sums_of(sales, from, to, long_term, currency)
        },
{
    assert(sales.push(sale).drop_last() =~= sales);
}

/// A currency that does not occur has no sums.
pub proof fn lemma_sums_of_absent(
    sales: Seq<SellTrade>,
    from: Timestamp,
    to: Timestamp,
    long_term: bool,
    currency: Seq<char>,
)
    requires
        !occurs(sales, from, to, long_term, currency),
    ensures
        sums_of(sales, from, to, long_term, Some(currency)) == no_sums(),
    decreases sales.len(),
{
    if sales.len() > 0 {
        let earlier = sales.drop_last();
        assert forall|i: int| 0 <= i < earlier.len() implies !selected(
            #[trigger] earlier[i],
            from,
            to,
            long_term,
            Some(currency),
        ) by {
            assert(earlier[i] == sales[i]);
        }
        lemma_sums_of_absent(earlier, from, to, long_term, currency);
        assert(!selected(sales[sales.len() - 1], from, to, long_term, Some(currency)));
    }
}

/// Sums over sales in range grow no faster than the number of sales.
pub proof fn lemma_sums_bounded(
    sales: Seq<SellTrade>,
    from: Timestamp,
    to: Timestamp,
    long_term: bool,
    currency: Option<Seq<char>>,
)
    requires
        all_in_range(sales),
    ensures
        ({
            let sums = sums_of(sales, from, to, long_term, currency);
            &&& 0 <= sums.volume <= sales.len() * u64::MAX
            &&& -(sales.len() * MAX_PROCEEDS) <= sums.proceeds <= sales.len() * MAX_PROCEEDS
            &&& 0 <= sums.cost_basis <= sales.len() * MAX_USD_VALUE
            &&& -(sales.len() * (MAX_PROCEEDS + MAX_USD_VALUE)) <= sums.gain <= sales.len()
                * MAX_PROCEEDS
        }),
    decreases sales.len(),
{
    if sales.len() > 0 {
        let earlier = sales.drop_last();
        assert forall|i: int| 0 <= i < earlier.len() implies (#[trigger] earlier[i]).in_range() by {
            assert(earlier[i] == sales[i]);
        }
        lemma_sums_bounded(earlier, from, to, long_term, currency);
        assert(sales[sales.len() - 1].in_range());
        let n = sales.len() as int;
        assert((n - 1) * u64::MAX + u64::MAX == n * u64::MAX) by (nonlinear_arith);
        assert((n - 1) * MAX_PROCEEDS + MAX_PROCEEDS == n * MAX_PROCEEDS) by (nonlinear_arith);
        assert((n - 1) * MAX_USD_VALUE + MAX_USD_VALUE == n * MAX_USD_VALUE) by (nonlinear_arith);
        assert((n - 1) * (MAX_PROCEEDS + MAX_USD_VALUE) + (MAX_PROCEEDS + MAX_USD_VALUE) == n * (
        MAX_PROCEEDS + MAX_USD_VALUE)) by (nonlinear_arith);
        assert(0 <= (n - 1) * u64::MAX) by (nonlinear_arith)
            requires
                n >= 1,
        ;
        assert(0 <= (n - 1) * MAX_PROCEEDS) by (nonlinear_arith)
            requires
                n >= 1,
        ;
        assert(0 <= (n - 1) * MAX_USD_VALUE) by (nonlinear_arith)
            requires
                n >= 1,
        ;
    }
}

/// A sale that does not count for a holding period leaves its sums as they
/// are.
pub proof fn lemma_term_unaffected(
    term: TermProceeds,
    sales: Seq<SellTrade>,
    sale: SellTrade,
    from: Timestamp,
    to: Timestamp,
    long_term: bool,
)
    requires
        term_ok(term, sales, from, to, long_term),
        !counts(sale, from, to, long_term),
    ensures
        term_ok(term, sales.push(sale), from, to, long_term),
{
    let more = sales.push(sale);
    let entries = term.by_currency@;
    assert forall|i: int| 0 <= i < entries.len() implies entry_ok(
        #[trigger] entries[i],
        more,
        from,
        to,
        long_term,
    ) by {
        let c = entries[i].currency@;
        assert(entry_ok(entries[i], sales, from, to, long_term));
        lemma_sums_of_push(sales, sale, from, to, long_term, Some(c));
        let k = choose|k: int|
            0 <= k < sales.len() && selected(#[trigger] sales[k], from, to, long_term, Some(c));
        assert(more[k] == sales[k]);
    }
    assert forall|c: Seq<char>| #[trigger] occurs(more, from, to, long_term, c) implies has_entry(
        entries,
        c,
    ) by {
        let k = choose|k: int|
            0 <= k < more.len() && selected(#[trigger] more[k], from, to, long_term, Some(c));
        assert(k < sales.len());
        assert(more[k] == sales[k]);
        assert(occurs(sales, from, to, long_term, c));
    }
    lemma_sums_of_push(sales, sale, from, to, long_term, None);
}

/// Finds the entry of `currency`, or the place where it belongs.
fn locate(entries: &Vec<CurrencyProceeds>, currency: &Currency) -> (place: (usize, bool))
    requires
        sorted(entries@),
    ensures
        place.0 <= entries@.len(),
        place.1 ==> place.0 < entries@.len() && entries@[place.0 as int].currency@ == currency@,
        !place.1 ==> !has_entry(entries@, currency@),
        !place.1 ==> forall|i: int|
            0 <= i < place.0 ==> name_before((#[trigger] entries@[i]).currency@, currency@),
        !place.1 ==> forall|i: int|
            place.0 <= i < entries@.len() ==> name_before(
                currency@,
                (#[trigger] entries@[i]).currency@,
            ),
{
    let mut i: usize = 0;
    while i < entries.len()
        invariant
            i <= entries.len(),
            sorted(entries@),
            forall|k: int| 0 <= k < i ==> name_before((#[trigger] entries@[k]).currency@, currency@),
        decreases entries.len() - i,
    {
        if entries[i].currency == *currency {
            return (i, true);
        }
        proof {
            lemma_names_ordered(entries@[i as int].currency@, currency@);
        }
        if is_name_before(currency.as_str(), entries[i].currency.as_str()) {
            proof {
                assert forall|k: int| i <= k < entries@.len() implies name_before(
                    currency@,
                    (#[trigger] entries@[k]).currency@,
                ) by {
                    if k > i {
                        assert(name_before(entries@[i as int].currency@, entries@[k].currency@));
                        lemma_bytes_transitive(
                            encode_utf8(currency@),
                            encode_utf8(entries@[i as int].currency@),
                            encode_utf8(entries@[k].currency@),
                        );
                    }
                }
                assert forall|k: int| 0 <= k < entries@.len() implies (
                #[trigger] entries@[k]).currency@ != currency@ by {
                    lemma_names_ordered(entries@[k].currency@, currency@);
                }
            }
            return (i, false);
        }
        i += 1;
    }
    proof {
        assert forall|k: int| 0 <= k < entries@.len() implies (#[trigger] entries@[k]).currency@
            != currency@ by {
            lemma_names_ordered(entries@[k].currency@, currency@);
        }
    }
    (i, false)
}

/// The sums with one more sale, where they fit.
fn add_sale(info: ProceedsInfo, sale: &SellTrade) -> (more: ProceedsInfo)
    requires
        info.volume + sale.volume <= u128::MAX,
        i128::MIN <= info.proceeds + sale.proceeds <= i128::MAX,
        info.cost_basis + sale.cost_basis <= u128::MAX,
        i128::MIN <= info.gain + sale.spec_gain() <= i128::MAX,
    ensures
        more.volume == info.volume + sale.volume,
        more.proceeds == info.proceeds + sale.proceeds,
        more.cost_basis == info.cost_basis + sale.cost_basis,
        more.gain == info.gain + sale.spec_gain(),
{
    ProceedsInfo {
        volume: info.volume + sale.volume as u128,
        proceeds: info.proceeds + sale.proceeds as i128,
        cost_basis: info.cost_basis + sale.cost_basis as u128,
        gain: info.gain + sale.gain(),
    }
}

/// Sums over as many sales as a vector holds fit in 128 bits.
proof fn lemma_sums_fit(
    sales: Seq<SellTrade>,
    from: Timestamp,
    to: Timestamp,
    long_term: bool,
    currency: Option<Seq<char>>,
)
    requires
        all_in_range(sales),
        sales.len() <= usize::MAX,
    ensures
        ({
            let sums = sums_of(sales, from, to, long_term, currency);
            &&& 0 <= sums.volume <= u128::MAX
            &&& i128::MIN <= sums.proceeds <= i128::MAX
            &&& 0 <= sums.cost_basis <= u128::MAX
            &&& i128::MIN <= sums.gain <= i128::MAX
        }),
{
    lemma_sums_bounded(sales, from, to, long_term, currency);
    let n = sales.len() as int;
    assert(n * u64::MAX <= u64::MAX * u64::MAX) by (nonlinear_arith)
        requires
            0 <= n <= u64::MAX,
    ;
    assert(n * MAX_PROCEEDS <= u64::MAX * MAX_PROCEEDS) by (nonlinear_arith)
        requires
            0 <= n <= u64::MAX,
    ;
    assert(n * MAX_USD_VALUE <= u64::MAX * MAX_USD_VALUE) by (nonlinear_arith)
        requires
            0 <= n <= u64::MAX,
    ;
    assert(n * (MAX_PROCEEDS + MAX_USD_VALUE) <= u64::MAX * (MAX_PROCEEDS + MAX_USD_VALUE))
        by (nonlinear_arith)
        requires
            0 <= n <= u64::MAX,
    ;
}

/// Adds a sale that counts to the sums of its holding period.
fn credit(
    term: &mut TermProceeds,
    sale: &SellTrade,
    Ghost(sales): Ghost<Seq<SellTrade>>,
    Ghost(from): Ghost<Timestamp>,
    Ghost(to): Ghost<Timestamp>,
    Ghost(long_term): Ghost<bool>,
)
    requires
        term_ok(*old(term), sales, from, to, long_term),
        counts(*sale, from, to, long_term),
        all_in_range(sales.push(*sale)),
        sales.len() < usize::MAX,
    ensures
        term_ok(*final(term), sales.push(*sale), from, to, long_term),
{
    let ghost more = sales.push(*sale);
    let ghost before = term.by_currency@;
    let ghost c = sale.currency@;
    proof {
        lemma_sums_fit(more, from, to, long_term, Some(c));
        lemma_sums_fit(more, from, to, long_term, None);
        lemma_sums_of_push(sales, *sale, from, to, long_term, Some(c));
        lemma_sums_of_push(sales, *sale, from, to, long_term, None);
        assert(more[sales.len() as int] == *sale);
        assert(occurs(more, from, to, long_term, c));
    }
    let place = locate(&term.by_currency, &sale.currency);
    let at = place.0;
    if place.1 {
        assert(entry_ok(before[at as int], sales, from, to, long_term));
        let info = add_sale(term.by_currency[at].info, sale);
        term.by_currency[at].info = info;
        proof {
            let after = term.by_currency@;
            assert forall|i: int, j: int| 0 <= i < j < after.len() implies name_before(
                (#[trigger] after[i]).currency@,
                (#[trigger] after[j]).currency@,
            ) by {
                assert(name_before(before[i].currency@, before[j].currency@));
            }
        }
    } else {
        proof {
            if occurs(sales, from, to, long_term, c) {
                assert(has_entry(before, c));
            }
            lemma_sums_of_absent(sales, from, to, long_term, c);
        }
        let nothing = ProceedsInfo { volume: 0, proceeds: 0, cost_basis: 0, gain: 0 };
        let info = add_sale(nothing, sale);
        term.by_currency.insert(at, CurrencyProceeds { currency: sale.currency.clone(), info });
        proof {
            let after = term.by_currency@;
            assert forall|i: int, j: int| 0 <= i < j < after.len() implies name_before(
                (#[trigger] after[i]).currency@,
                (#[trigger] after[j]).currency@,
            ) by {
                if i == at {
                    assert(after[j] == before[j - 1]);
                } else if j == at {
                    assert(after[i] == before[i]);
                } else {
                    let bi = if i < at {
                        i
                    } else {
                        i - 1
                    };
                    let bj = if j < at {
                        j
                    } else {
                        j - 1
                    };
                    assert(after[i] == before[bi]);
                    assert(after[j] == before[bj]);
                    assert(name_before(before[bi].currency@, before[bj].currency@));
                }
            }
        }
    }
    let totals = add_sale(term.totals, sale);
    term.totals = totals;
    proof {
        let after = term.by_currency@;
        assert forall|i: int| 0 <= i < after.len() implies entry_ok(
            #[trigger] after[i],
            more,
            from,
            to,
            long_term,
        ) by {
            if i != at {
                let bi = if place.1 || i < at {
                    i
                } else {
                    i - 1
                };
                assert(after[i] == before[bi]);
                let other = before[bi].currency@;
                assert(entry_ok(before[bi], sales, from, to, long_term));
                assert(other != c) by {
                    if place.1 {
                        if bi < at {
                            assert(name_before(before[bi].currency@, before[at as int].currency@));
                        } else {
                            assert(name_before(before[at as int].currency@, before[bi].currency@));
                        }
                        lemma_names_ordered(other, c);
                        lemma_names_ordered(c, other);
                    }
                }
                lemma_sums_of_push(sales, *sale, from, to, long_term, Some(other));
                let k = choose|k: int|
                    0 <= k < sales.len() && selected(
                        #[trigger] sales[k],
                        from,
                        to,
                        long_term,
                        Some(other),
                    );
                assert(more[k] == sales[k]);
            }
        }
        assert forall|x: Seq<char>| #[trigger] occurs(more, from, to, long_term, x) implies has_entry(
            after,
            x,
        ) by {
            if x == c {
                assert(after[at as int].currency@ == c);
            } else {
                let k = choose|k: int|
                    0 <= k < more.len() && selected(
                        #[trigger] more[k],
                        from,
                        to,
                        long_term,
                        Some(x),
                    );
                assert(k < sales.len());
                assert(more[k] == sales[k]);
                assert(occurs(sales, from, to, long_term, x));
                let i = choose|i: int|
                    0 <= i < before.len() && (#[trigger] before[i]).currency@ == x;
                let ai = if place.1 || i < at {
                    i
                } else {
                    i + 1
                };
                assert(after[ai] == before[i]);
            }
        }
    }
}

/// What [`aggregate`] returns. A window that does not start before it ends
/// is refused. Else the first sale in the window that the calendar cannot
/// classify is reported, if there is one. Else the result holds, for each
/// holding period, what [`term_ok`] says.
pub open spec fn is_aggregate_of(
    result: Result<Proceeds, ProceedsError>,
    sales: Seq<SellTrade>,
    from: Timestamp,
    to: Timestamp,
) -> bool {
    if from.millis >= to.millis {
        result == Err::<Proceeds, ProceedsError>(ProceedsError::InvalidWindow)
    } else {
        match result {
            Ok(proceeds) => {
                &&& forall|i: int|
                    0 <= i < sales.len() ==> !unclassified(#[trigger] sales[i], from, to)
                &&& term_ok(proceeds.long_term, sales, from, to, true)
                &&& term_ok(proceeds.short_term, sales, from, to, false)
            },
            Err(ProceedsError::Unclassified { sale_idx }) => {
                &&& sale_idx < sales.len()
                &&& unclassified(sales[sale_idx as int], from, to)
                &&& forall|i: int| 0 <= i < sale_idx ==> !unclassified(#[trigger] sales[i], from, to)
            },
            Err(ProceedsError::InvalidWindow) => false,
        }
    }
}

/// Sums the realized sales made in the window `[dt_from, dt_to)`, long-term
/// and short-term sales apart, per currency and over all currencies.
pub fn aggregate(sales: &Vec<SellTrade>, dt_from: &Timestamp, dt_to: &Timestamp) -> (result: Result<
    Proceeds,
    ProceedsError,
>)
    requires
        all_in_range(sales@),
    ensures
        is_aggregate_of(result, sales@, *dt_from, *dt_to),
{
    if dt_from.millis >= dt_to.millis {
        return Err(ProceedsError::InvalidWindow);
    }
    let nothing = ProceedsInfo { volume: 0, proceeds: 0, cost_basis: 0, gain: 0 };
    let mut long_term = TermProceeds { by_currency: Vec::new(), totals: nothing };
    let mut short_term = TermProceeds { by_currency: Vec::new(), totals: nothing };
    let mut k: usize = 0;
    assert(sales@.take(0) =~= Seq::<SellTrade>::empty());
    while k < sales.len()
        invariant
            k <= sales.len(),
            dt_from.millis < dt_to.millis,
            all_in_range(sales@),
            term_ok(long_term, sales@.take(k as int), *dt_from, *dt_to, true),
            term_ok(short_term, sales@.take(k as int), *dt_from, *dt_to, false),
            forall|i: int| 0 <= i < k ==> !unclassified(#[trigger] sales@[i], *dt_from, *dt_to),
        decreases sales.len() - k,
    {
        let sale = &sales[k];
        let ghost earlier = sales@.take(k as int);
        proof {
            assert(sales@.take(k + 1) =~= earlier.push(*sale));
            assert forall|i: int| 0 <= i < earlier.push(*sale).len() implies (
            #[trigger] earlier.push(*sale)[i]).in_range() by {
                assert(earlier.push(*sale)[i] == sales@[i]);
            }
        }
        if is_datetime_within_limits(&sale.sell_datetime, dt_from, dt_to) {
            match sale.is_long_term() {
                Some(true) => {
                    credit(
                        &mut long_term,
                        sale,
                        Ghost(earlier),
                        Ghost(*dt_from),
                        Ghost(*dt_to),
                        Ghost(true),
                    );
                    proof {
                        lemma_term_unaffected(short_term, earlier, *sale, *dt_from, *dt_to, false);
                    }
                },
                Some(false) => {
                    credit(
                        &mut short_term,
                        sale,
                        Ghost(earlier),
                        Ghost(*dt_from),
                        Ghost(*dt_to),
                        Ghost(false),
                    );
                    proof {
                        lemma_term_unaffected(long_term, earlier, *sale, *dt_from, *dt_to, true);
                    }
                },
                None => {
                    return Err(ProceedsError::Unclassified { sale_idx: k });
                },
            }
        } else {
            proof {
                lemma_term_unaffected(long_term, earlier, *sale, *dt_from, *dt_to, true);
                lemma_term_unaffected(short_term, earlier, *sale, *dt_from, *dt_to, false);
            }
        }
        k += 1;
    }
    assert(sales@.take(sales@.len() as int) =~= sales@);
    Ok(Proceeds { long_term, short_term })
}

} // verus!
