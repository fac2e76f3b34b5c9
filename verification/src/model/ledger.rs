//! The holdings ledger: for each currency held, its queue of open lots.
//!
//! The ledger is a list of buckets, one per currency, with no currency
//! twice and no bucket empty. Contracts speak of [`queue_in`], the queue of a
//! currency, which is empty for a currency that has no bucket.

use vstd::prelude::*;

use crate::model::holdings::{
    all_positive, covers, dispose, lemma_fifo_order, lots_after, slices_sold, HoldingsItem,
};
use crate::model::Currency;

verus! {

/// The open lots of one currency, oldest first.
#[derive(Debug)]
pub struct HoldingsBucket {
    pub currency: Currency,
    pub items: Vec<HoldingsItem>,
}

/// Bucket `i` is the bucket of `currency`.
pub open spec fn bucket_at(buckets: Seq<HoldingsBucket>, i: int, currency: Seq<char>) -> bool {
    0 <= i < buckets.len() && buckets[i].currency@ == currency
}

/// Some bucket is the bucket of `currency`.
pub open spec fn has_bucket(buckets: Seq<HoldingsBucket>, currency: Seq<char>) -> bool {
    exists|i: int| bucket_at(buckets, i, currency)
}

/// The queue of open lots of `currency`, oldest first; empty if none is
/// held.
pub open spec fn queue_in(buckets: Seq<HoldingsBucket>, currency: Seq<char>) -> Seq<
    HoldingsItem,
> {
    if has_bucket(buckets, currency) {
        buckets[choose|i: int| bucket_at(buckets, i, currency)].items@
    } else {
        Seq::empty()
    }
}

/// No currency has two buckets.
pub open spec fn distinct(buckets: Seq<HoldingsBucket>) -> bool {
    forall|i: int, j: int|
        0 <= i < j < buckets.len() ==> (#[trigger] buckets[i]).currency@ != (
        #[trigger] buckets[j]).currency@
}

/// No currency has two buckets, and no bucket is empty.
pub open spec fn well_kept(buckets: Seq<HoldingsBucket>) -> bool {
    &&& distinct(buckets)
    &&& forall|i: int| 0 <= i < buckets.len() ==> (#[trigger] buckets[i]).items@.len() > 0
}

/// Where no currency has two buckets, the queue of a bucket's currency is
/// that bucket's.
pub proof fn lemma_queue_at(buckets: Seq<HoldingsBucket>, i: int)
    requires
        distinct(buckets),
        0 <= i < buckets.len(),
    ensures
        has_bucket(buckets, buckets[i].currency@),
        queue_in(buckets, buckets[i].currency@) == buckets[i].items@,
{
    let currency = buckets[i].currency@;
    assert(bucket_at(buckets, i, currency));
    let k = choose|k: int| bucket_at(buckets, k, currency);
    assert(k == i) by {
        if k < i {
            assert(buckets[k].currency@ != buckets[i].currency@);
        } else if i < k {
            assert(buckets[i].currency@ != buckets[k].currency@);
        }
    }
}

/// Changing the queue of one bucket changes the queue of its currency and
/// of no other.
pub proof fn lemma_queue_after_update(
    before: Seq<HoldingsBucket>,
    after: Seq<HoldingsBucket>,
    at: int,
)
    requires
        distinct(before),
        0 <= at < before.len(),
        after.len() == before.len(),
        forall|i: int| 0 <= i < before.len() && i != at ==> #[trigger] after[i] == before[i],
        after[at].currency@ == before[at].currency@,
    ensures
        distinct(after),
        forall|c: Seq<char>|
            #[trigger] queue_in(after, c) == if c == before[at].currency@ {
                after[at].items@
            } else {
                queue_in(before, c)
            },
{
    assert forall|i: int, j: int| 0 <= i < j < after.len() implies (#[trigger] after[i]).currency@
        != (#[trigger] after[j]).currency@ by {
        assert(before[i].currency@ != before[j].currency@);
    }
    assert forall|c: Seq<char>|
        #[trigger] queue_in(after, c) == if c == before[at].currency@ {
            after[at].items@
        } else {
            queue_in(before, c)
        } by {
        if c == before[at].currency@ {
            lemma_queue_at(after, at);
        } else if has_bucket(before, c) {
            let i = choose|i: int| bucket_at(before, i, c);
            assert(after[i] == before[i]);
            lemma_queue_at(after, i);
            lemma_queue_at(before, i);
        } else {
            if has_bucket(after, c) {
                let j = choose|j: int| bucket_at(after, j, c);
                assert(after[j] == before[j]);
                assert(bucket_at(before, j, c));
            }
        }
    }
}

/// Taking a bucket out empties the queue of its currency and changes no
/// other.
pub proof fn lemma_queue_after_remove(before: Seq<HoldingsBucket>, at: int)
    requires
        distinct(before),
        0 <= at < before.len(),
    ensures
        distinct(before.remove(at)),
        forall|c: Seq<char>|
            #[trigger] queue_in(before.remove(at), c) == if c == before[at].currency@ {
                Seq::<HoldingsItem>::empty()
            } else {
                queue_in(before, c)
            },
{
    let after = before.remove(at);
    assert forall|i: int, j: int| 0 <= i < j < after.len() implies (#[trigger] after[i]).currency@
        != (#[trigger] after[j]).currency@ by {
        let bi = if i < at {
            i
        } else {
            i + 1
        };
        let bj = if j < at {
            j
        } else {
            j + 1
        };
        assert(before[bi].currency@ != before[bj].currency@);
    }
    assert forall|c: Seq<char>|
        #[trigger] queue_in(after, c) == if c == before[at].currency@ {
            Seq::<HoldingsItem>::empty()
        } else {
            queue_in(before, c)
        } by {
        if has_bucket(after, c) {
            let j = choose|j: int| bucket_at(after, j, c);
            let bj = if j < at {
                j
            } else {
                j + 1
            };
            assert(after[j] == before[bj]);
            assert(bucket_at(before, bj, c));
            if bj < at {
                assert(before[bj].currency@ != before[at].currency@);
            } else {
                assert(before[at].currency@ != before[bj].currency@);
            }
            lemma_queue_at(after, j);
            lemma_queue_at(before, bj);
        } else if c != before[at].currency@ {
            if has_bucket(before, c) {
                let i = choose|i: int| bucket_at(before, i, c);
                let ai = if i < at {
                    i
                } else {
                    i - 1
                };
                assert(after[ai] == before[i]);
                assert(bucket_at(after, ai, c));
            }
        }
    }
}

/// A new bucket for a currency that had none gives that currency its queue
/// and changes no other.
pub proof fn lemma_queue_after_push(before: Seq<HoldingsBucket>, bucket: HoldingsBucket)
    requires
        well_kept(before),
        !has_bucket(before, bucket.currency@),
        bucket.items@.len() > 0,
    ensures
        well_kept(before.push(bucket)),
        forall|c: Seq<char>|
            #[trigger] queue_in(before.push(bucket), c) == if c == bucket.currency@ {
                bucket.items@
            } else {
                queue_in(before, c)
            },
{
    let after = before.push(bucket);
    let last = before.len() as int;
    assert forall|i: int, j: int| 0 <= i < j < after.len() implies (#[trigger] after[i]).currency@
        != (#[trigger] after[j]).currency@ by {
        if j == last {
            assert(!bucket_at(before, i, bucket.currency@));
        } else {
            assert(before[i].currency@ != before[j].currency@);
        }
    }
    assert forall|i: int| 0 <= i < after.len() implies (#[trigger] after[i]).items@.len() > 0 by {
        if i < last {
            assert(before[i].items@.len() > 0);
        }
    }
    assert forall|c: Seq<char>|
        #[trigger] queue_in(after, c) == if c == bucket.currency@ {
            bucket.items@
        } else {
            queue_in(before, c)
        } by {
        if c == bucket.currency@ {
            lemma_queue_at(after, last);
        } else if has_bucket(before, c) {
            let i = choose|i: int| bucket_at(before, i, c);
            assert(after[i] == before[i]);
            lemma_queue_at(after, i);
            lemma_queue_at(before, i);
        } else {
            if has_bucket(after, c) {
                let j = choose|j: int| bucket_at(after, j, c);
                assert(j < last);
                assert(after[j] == before[j]);
                assert(bucket_at(before, j, c));
            }
        }
    }
}

/// Finds the bucket of `currency`.
pub fn find_bucket(buckets: &Vec<HoldingsBucket>, currency: &Currency) -> (found: Option<usize>)
    ensures
        match found {
            Some(i) => bucket_at(buckets@, i as int, currency@),
            None => !has_bucket(buckets@, currency@),
        },
{
    let mut i: usize = 0;
    while i < buckets.len()
        invariant
            i <= buckets.len(),
            forall|k: int| 0 <= k < i ==> !bucket_at(buckets@, k, currency@),
        decreases buckets.len() - i,
    {
        if buckets[i].currency == *currency {
            return Some(i);
        }
        i += 1;
    }
    None
}

/// Disposes of `volume` of `currency`, oldest lot first, and returns the
/// slices taken. The bucket goes when its last lot does.
pub fn drain(buckets: &mut Vec<HoldingsBucket>, at: usize, volume: u64) -> (sold: Vec<
    HoldingsItem,
>)
    requires
        well_kept(old(buckets)@),
        at < old(buckets)@.len(),
        all_positive(old(buckets)@[at as int].items@),
        covers(old(buckets)@[at as int].items@, volume as int),
    ensures
        well_kept(final(buckets)@),
        sold@ == slices_sold(old(buckets)@[at as int].items@, volume as int),
        forall|c: Seq<char>|
            #[trigger] queue_in(final(buckets)@, c) == if c == old(buckets)@[at as int].currency@ {
                lots_after(old(buckets)@[at as int].items@, volume as int)
            } else {
                queue_in(old(buckets)@, c)
            },
{
    let ghost before = buckets@;
    let sold = dispose(&mut buckets[at].items, volume);
    let ghost drained = buckets@;
    proof {
        lemma_queue_after_update(before, drained, at as int);
        assert forall|i: int| 0 <= i < drained.len() && i != at implies (
        #[trigger] drained[i]).items@.len() > 0 by {
            assert(before[i].items@.len() > 0);
        }
    }
    if buckets[at].items.len() == 0 {
        buckets.remove(at);
        proof {
            lemma_queue_after_remove(drained, at as int);
            assert forall|i: int| 0 <= i < buckets@.len() implies (#[trigger] buckets@[i]).items@.len()
                > 0 by {
                let di = if i < at {
                    i
                } else {
                    i + 1
                };
                assert(buckets@[i] == drained[di]);
            }
        }
    }
    sold
}

/// Puts `lot` at the end of the queue of `currency`.
pub fn deposit(buckets: &mut Vec<HoldingsBucket>, currency: Currency, lot: HoldingsItem)
    requires
        well_kept(old(buckets)@),
    ensures
        well_kept(final(buckets)@),
        forall|c: Seq<char>|
            #[trigger] queue_in(final(buckets)@, c) == if c == currency@ {
                queue_in(old(buckets)@, c).push(lot)
            } else {
                queue_in(old(buckets)@, c)
            },
{
    let ghost before = buckets@;
    match find_bucket(buckets, &currency) {
        Some(at) => {
            buckets[at].items.push(lot);
            proof {
                lemma_queue_at(before, at as int);
                lemma_queue_after_update(before, buckets@, at as int);
                assert forall|i: int| 0 <= i < buckets@.len() implies (
                #[trigger] buckets@[i]).items@.len() > 0 by {
                    if i != at {
                        assert(before[i].items@.len() > 0);
                    }
                }
            }
        },
        None => {
            let mut items: Vec<HoldingsItem> = Vec::new();
            items.push(lot);
            let bucket = HoldingsBucket { currency, items };
            buckets.push(bucket);
            proof {
                lemma_queue_after_push(before, bucket);
                assert(queue_in(before, currency@).push(lot) =~= bucket.items@);
            }
        },
    }
}

} // verus!
