//! The holdings report: for each currency held, what is held, what it cost
//! and the average cost of a unit, largest cost basis first.

use vstd::prelude::*;

use crate::amount::SCALE;
use crate::model::holdings::{total_cost_basis, total_volume, totals, HoldingsItem};
use crate::model::ledger::{distinct, HoldingsBucket};
use crate::model::lexical::{is_name_before, lemma_bytes_transitive, lemma_names_ordered, name_before};
use crate::model::Currency;
use vstd::utf8::encode_utf8;

verus! {

/// What is held of one currency.
#[derive(Debug)]
pub struct HoldingsSummary {
    pub currency: Currency,
    pub total_volume: u128,
    pub total_cost_basis: u128,
    /// Cost basis per unit held; `None` where nothing is held or the
    /// quotient cannot be formed in 128 bits.
    pub average_cost: Option<u128>,
    pub lots: Vec<HoldingsItem>,
}

/// Cost basis per unit of volume, at the scale of amounts.
pub open spec fn average_cost_of(cost_basis: int, volume: int) -> Option<int> {
    if volume > 0 && cost_basis * SCALE <= u128::MAX {
        Some((cost_basis * SCALE) / volume)
    } else {
        None
    }
}

/// `summary` is the summary of `bucket`.
#[verifier::opaque]
pub open spec fn summarizes(summary: HoldingsSummary, bucket: HoldingsBucket) -> bool {
    &&& summary.currency@ == bucket.currency@
    &&& summary.lots@ == bucket.items@
    &&& summary.total_volume == total_volume(bucket.items@)
    &&& summary.total_cost_basis == total_cost_basis(bucket.items@)
    &&& match summary.average_cost {
        Some(average) => average_cost_of(
            total_cost_basis(bucket.items@),
            total_volume(bucket.items@),
        ) == Some(average as int),
        None => average_cost_of(total_cost_basis(bucket.items@), total_volume(bucket.items@))
            is None,
    }
}

/// `a` is listed before `b`: it has the larger cost basis, or the same and
/// the earlier name.
#[verifier::opaque]
pub open spec fn listed_before(a: HoldingsSummary, b: HoldingsSummary) -> bool {
    a.total_cost_basis > b.total_cost_basis || (a.total_cost_basis == b.total_cost_basis
        && name_before(a.currency@, b.currency@))
}

/// The report lists its summaries in order.
pub open spec fn in_order(report: Seq<HoldingsSummary>) -> bool {
    forall|i: int, j: int|
        0 <= i < j < report.len() ==> listed_before(#[trigger] report[i], #[trigger] report[j])
}

/// One of `buckets` is what `summary` summarizes.
pub open spec fn has_source(summary: HoldingsSummary, buckets: Seq<HoldingsBucket>) -> bool {
    exists|k: int| 0 <= k < buckets.len() && summarizes(summary, #[trigger] buckets[k])
}

/// One of the summaries of `report` is that of `bucket`.
pub open spec fn has_summary(report: Seq<HoldingsSummary>, bucket: HoldingsBucket) -> bool {
    exists|i: int| 0 <= i < report.len() && summarizes(#[trigger] report[i], bucket)
}

/// `report` is the report of `buckets`: one summary for each bucket and no
/// other, in order.
pub open spec fn reports(report: Seq<HoldingsSummary>, buckets: Seq<HoldingsBucket>) -> bool {
    &&& report.len() == buckets.len()
    &&& in_order(report)
    &&& forall|i: int| 0 <= i < report.len() ==> has_source(#[trigger] report[i], buckets)
    &&& forall|k: int| 0 <= k < buckets.len() ==> has_summary(report, #[trigger] buckets[k])
}

/// Tests [`listed_before`].
fn is_listed_before(a: &HoldingsSummary, b: &HoldingsSummary) -> (before: bool)
    ensures
        before == listed_before(*a, *b),
{
    reveal(listed_before);
    a.total_cost_basis > b.total_cost_basis || (a.total_cost_basis == b.total_cost_basis
        && is_name_before(a.currency.as_str(), b.currency.as_str()))
}

/// The order of the list goes through.
proof fn lemma_listed_transitive(a: HoldingsSummary, b: HoldingsSummary, c: HoldingsSummary)
    requires
        listed_before(a, b),
        listed_before(b, c),
    ensures
        listed_before(a, c),
{
    reveal(listed_before);
    if a.total_cost_basis == b.total_cost_basis && b.total_cost_basis == c.total_cost_basis {
        lemma_bytes_transitive(
            encode_utf8(a.currency@),
            encode_utf8(b.currency@),
            encode_utf8(c.currency@),
        );
    }
}

/// Of two summaries of different currencies one is listed before the
/// other.
proof fn lemma_listed_total(a: HoldingsSummary, b: HoldingsSummary)
    requires
        a.currency@ != b.currency@,
    ensures
        listed_before(a, b) || listed_before(b, a),
{
    reveal(listed_before);
    lemma_names_ordered(a.currency@, b.currency@);
}

/// A summary has the currency of its bucket.
proof fn lemma_summary_currency(summary: HoldingsSummary, bucket: HoldingsBucket)
    requires
        summarizes(summary, bucket),
    ensures
        summary.currency@ == bucket.currency@,
{
    reveal(summarizes);
}

/// Summarizes one bucket.
pub fn summarize(bucket: &HoldingsBucket) -> (summary: HoldingsSummary)
    ensures
        summarizes(summary, *bucket),
{
    reveal(summarizes);
    let sums = totals(&bucket.items);
    let average_cost = if sums.0 > 0 {
        match sums.1.checked_mul(SCALE as u128) {
            Some(scaled) => Some(scaled / sums.0),
            None => None,
        }
    } else {
        None
    };
    let mut lots: Vec<HoldingsItem> = Vec::new();
    let mut i: usize = 0;
    while i < bucket.items.len()
        invariant
            i <= bucket.items.len(),
            lots@ == bucket.items@.take(i as int),
        decreases bucket.items.len() - i,
    {
        lots.push(bucket.items[i]);
        assert(lots@ =~= bucket.items@.take(i + 1));
        i += 1;
    }
    assert(bucket.items@.take(bucket.items@.len() as int) =~= bucket.items@);
    HoldingsSummary {
        currency: bucket.currency.clone(),
        total_volume: sums.0,
        total_cost_basis: sums.1,
        average_cost,
        lots,
    }
}

/// A summary put in its place keeps the list in order.
proof fn lemma_insert_in_order(before: Seq<HoldingsSummary>, summary: HoldingsSummary, at: int)
    requires
        in_order(before),
        0 <= at <= before.len(),
        forall|i: int| 0 <= i < at ==> listed_before(#[trigger] before[i], summary),
        forall|i: int| at <= i < before.len() ==> listed_before(summary, #[trigger] before[i]),
    ensures
        in_order(before.insert(at, summary)),
{
    let after = before.insert(at, summary);
    assert forall|i: int, j: int| 0 <= i < j < after.len() implies listed_before(
        #[trigger] after[i],
        #[trigger] after[j],
    ) by {
        if i == at {
            assert(after[j] == before[j - 1]);
        } else if j == at {
            assert(after[i] == before[i]);
        } else {
            let bi = if i < at {
                i
            } else {
                i - 1
            };
            let bj = if j < at {
                j
            } else {
                j - 1
            };
            assert(after[i] == before[bi]);
            assert(after[j] == before[bj]);
            assert(listed_before(before[bi], before[bj]));
        }
    }
}

/// No summary of a report has the currency of a bucket that is new.
proof fn lemma_new_currency(
    before: Seq<HoldingsSummary>,
    seen: Seq<HoldingsBucket>,
    summary: HoldingsSummary,
    bucket: HoldingsBucket,
    i: int,
)
    requires
        0 <= i < before.len(),
        has_source(before[i], seen),
        forall|k: int| 0 <= k < seen.len() ==> (#[trigger] seen[k]).currency@ != bucket.currency@,
        summarizes(summary, bucket),
    ensures
        before[i].currency@ != summary.currency@,
{
    let k = choose|k: int| 0 <= k < seen.len() && summarizes(before[i], #[trigger] seen[k]);
    lemma_summary_currency(before[i], seen[k]);
    lemma_summary_currency(summary, bucket);
}

/// After the place of a summary come the summaries that are listed after
/// it.
proof fn lemma_rest_listed_after(
    before: Seq<HoldingsSummary>,
    seen: Seq<HoldingsBucket>,
    summary: HoldingsSummary,
    bucket: HoldingsBucket,
    at: int,
    i: int,
)
    requires
        in_order(before),
        0 <= at <= i < before.len(),
        has_source(before[at], seen),
        forall|k: int| 0 <= k < seen.len() ==> (#[trigger] seen[k]).currency@ != bucket.currency@,
        summarizes(summary, bucket),
        !listed_before(before[at], summary),
    ensures
        listed_before(summary, before[i]),
{
    lemma_new_currency(before, seen, summary, bucket, at);
    lemma_listed_total(summary, before[at]);
    if i > at {
        assert(listed_before(before[at], before[i]));
        lemma_listed_transitive(summary, before[at], before[i]);
    }
}

/// A summary put into a report leaves each summary with its bucket and each
/// bucket with its summary.
proof fn lemma_insert_keeps_sources(
    before: Seq<HoldingsSummary>,
    seen: Seq<HoldingsBucket>,
    summary: HoldingsSummary,
    bucket: HoldingsBucket,
    at: int,
)
    requires
        before.len() == seen.len(),
        forall|i: int| 0 <= i < before.len() ==> has_source(#[trigger] before[i], seen),
        forall|k: int| 0 <= k < seen.len() ==> has_summary(before, #[trigger] seen[k]),
        summarizes(summary, bucket),
        0 <= at <= before.len(),
    ensures
        forall|i: int|
            0 <= i < before.len() + 1 ==> has_source(
                #[trigger] before.insert(at, summary)[i],
                seen.push(bucket),
            ),
        forall|k: int|
            0 <= k < seen.len() + 1 ==> has_summary(
                before.insert(at, summary),
                #[trigger] seen.push(bucket)[k],
            ),
{
    let after = before.insert(at, summary);
    let more = seen.push(bucket);
    let last = seen.len() as int;
    assert(more[last] == bucket);
    assert forall|i: int| 0 <= i < after.len() implies has_source(#[trigger] after[i], more) by {
        if i == at {
            assert(summarizes(after[i], more[last]));
        } else {
            let bi = if i < at {
                i
            } else {
                i - 1
            };
            assert(after[i] == before[bi]);
            assert(has_source(before[bi], seen));
            let k = choose|k: int|
                0 <= k < seen.len() && summarizes(before[bi], #[trigger] seen[k]);
            assert(more[k] == seen[k]);
            assert(summarizes(after[i], more[k]));
        }
    }
    assert forall|k: int| 0 <= k < more.len() implies has_summary(after, #[trigger] more[k]) by {
        if k == last {
            assert(summarizes(after[at], more[k]));
        } else {
            assert(more[k] == seen[k]);
            assert(has_summary(before, seen[k]));
            let i = choose|i: int|
                0 <= i < before.len() && summarizes(#[trigger] before[i], seen[k]);
            let ai = if i < at {
                i
            } else {
                i + 1
            };
            assert(after[ai] == before[i]);
            assert(summarizes(after[ai], more[k]));
        }
    }
}

/// A summary put in its place keeps the report a report, of one more
/// bucket.
proof fn lemma_insert_keeps_report(
    before: Seq<HoldingsSummary>,
    seen: Seq<HoldingsBucket>,
    summary: HoldingsSummary,
    bucket: HoldingsBucket,
    at: int,
)
    requires
        reports(before, seen),
        forall|k: int| 0 <= k < seen.len() ==> (#[trigger] seen[k]).currency@ != bucket.currency@,
        summarizes(summary, bucket),
        0 <= at <= before.len(),
        forall|i: int| 0 <= i < at ==> listed_before(#[trigger] before[i], summary),
        at < before.len() ==> !listed_before(before[at], summary),
    ensures
        reports(before.insert(at, summary), seen.push(bucket)),
{
    assert forall|i: int| at <= i < before.len() implies listed_before(
        summary,
        #[trigger] before[i],
    ) by {
        lemma_rest_listed_after(before, seen, summary, bucket, at, i);
    }
    lemma_insert_in_order(before, summary, at);
    lemma_insert_keeps_sources(before, seen, summary, bucket, at);
}

/// Reports what the ledger holds.
pub fn snapshot(buckets: &Vec<HoldingsBucket>) -> (report: Vec<HoldingsSummary>)
    requires
        distinct(buckets@),
    ensures
        reports(report@, buckets@),
{
    let mut report: Vec<HoldingsSummary> = Vec::new();
    let mut done: usize = 0;
    while done < buckets.len()
        invariant
            done <= buckets.len(),
            distinct(buckets@),
            reports(report@, buckets@.take(done as int)),
        decreases buckets.len() - done,
    {
        let ghost seen = buckets@.take(done as int);
        let ghost before = report@;
        let summary = summarize(&buckets[done]);
        let at = place_of(&report, &summary);
        proof {
            let more = buckets@.take(done + 1);
            assert(more =~= seen.push(buckets@[done as int]));
            assert forall|k: int| 0 <= k < seen.len() implies (#[trigger] seen[k]).currency@
                != buckets@[done as int].currency@ by {
                assert(buckets@[k].currency@ != buckets@[done as int].currency@);
            }
            lemma_insert_keeps_report(before, seen, summary, buckets@[done as int], at as int);
        }
        report.insert(at, summary);
        done += 1;
    }
    assert(buckets@.take(buckets@.len() as int) =~= buckets@);
    report
}

/// The first place in the report whose summary is not listed before
/// `summary`.
fn place_of(report: &Vec<HoldingsSummary>, summary: &HoldingsSummary) -> (at: usize)
    ensures
        at <= report@.len(),
        forall|i: int| 0 <= i < at ==> listed_before(#[trigger] report@[i], *summary),
        at < report@.len() ==> !listed_before(report@[at as int], *summary),
{
    let mut at: usize = 0;
    while at < report.len() && is_listed_before(&report[at], summary)
        invariant
            at <= report.len(),
            forall|i: int| 0 <= i < at ==> listed_before(#[trigger] report@[i], *summary),
        decreases report.len() - at,
    {
        at += 1;
    }
    at
}

} // verus!
