//! The price registry: the latest quoted price per currency.
//!
//! Entries are created on the first quote for a currency and overwritten by
//! every later quote; nothing is ever deleted, and only the latest value is
//! observable.

use vstd::prelude::*;
use crate::fixed::Price;

verus! {

/// The latest quoted price recorded for one currency.
#[derive(Clone, Copy, PartialEq, Eq, Structural, Debug)]
pub struct PriceEntry {
    pub currency: u64,
    pub price: Price,
}

/// Mapping from currency to its latest quoted price, last write wins.
pub struct PriceRegistry {
    pub entries: Vec<PriceEntry>,
}

/// First price recorded for `c` in `entries`, if any.
pub open spec fn price_in(entries: Seq<PriceEntry>, c: u64) -> Option<Price>
    decreases entries.len(),
{
    if entries.len() == 0 {
        None
    } else if entries[0].currency == c {
        Some(entries[0].price)
    } else {
        price_in(entries.skip(1), c)
    }
}

/// Overwriting the first entry for a currency changes that currency's
/// recorded price and nothing else.
proof fn lemma_price_in_update(entries: Seq<PriceEntry>, i: int, e: PriceEntry)
    requires
        0 <= i < entries.len(),
        entries[i].currency == e.currency,
        forall|k: int| 0 <= k < i ==> (#[trigger] entries[k]).currency != e.currency,
    ensures
        price_in(entries.update(i, e), e.currency) == Some(e.price),
        forall|c2: u64|
            c2 != e.currency ==> price_in(entries.update(i, e), c2) == price_in(entries, c2),
    decreases i,
{
    let updated = entries.update(i, e);
    if i == 0 {
        assert(updated.skip(1) =~= entries.skip(1));
        assert forall|c2: u64| c2 != e.currency implies price_in(updated, c2) == price_in(
            entries,
            c2,
        ) by {
            assert(price_in(updated, c2) == price_in(updated.skip(1), c2));
            assert(price_in(entries, c2) == price_in(entries.skip(1), c2));
        }
    } else {
        assert(updated[0] == entries[0]);
        assert(updated.skip(1) =~= entries.skip(1).update(i - 1, e));
        assert(forall|k: int|
            0 <= k < i - 1 ==> (#[trigger] entries.skip(1)[k]).currency != e.currency);
        lemma_price_in_update(entries.skip(1), i - 1, e);
        assert(price_in(updated, e.currency) == Some(e.price));
        assert forall|c2: u64| c2 != e.currency implies price_in(updated, c2) == price_in(
            entries,
            c2,
        ) by {
            if entries[0].currency == c2 {
                assert(price_in(updated, c2) == Some(entries[0].price));
            } else {
                assert(price_in(updated, c2) == price_in(updated.skip(1), c2));
                assert(price_in(entries, c2) == price_in(entries.skip(1), c2));
            }
        }
    }
}

/// Appending an entry for a currency with no earlier entry records that
/// currency's price and changes nothing else.
proof fn lemma_price_in_push(entries: Seq<PriceEntry>, e: PriceEntry)
    requires
        forall|k: int|
            0 <= k < entries.len() ==> (#[trigger] entries[k]).currency != e.currency,
    ensures
        price_in(entries.push(e), e.currency) == Some(e.price),
        forall|c2: u64|
            c2 != e.currency ==> price_in(entries.push(e), c2) == price_in(entries, c2),
    decreases entries.len(),
{
    let pushed = entries.push(e);
    if entries.len() == 0 {
        assert(pushed[0] == e);
        assert(pushed.skip(1) =~= entries);
        assert forall|c2: u64| c2 != e.currency implies price_in(pushed, c2) == price_in(
            entries,
            c2,
        ) by {
            assert(price_in(pushed, c2) == price_in(pushed.skip(1), c2));
        }
    } else {
        assert(pushed[0] == entries[0]);
        assert(pushed.skip(1) =~= entries.skip(1).push(e));
        lemma_price_in_push(entries.skip(1), e);
        assert(price_in(pushed, e.currency) == Some(e.price));
        assert forall|c2: u64| c2 != e.currency implies price_in(pushed, c2) == price_in(
            entries,
            c2,
        ) by {
            if entries[0].currency == c2 {
                assert(price_in(pushed, c2) == Some(entries[0].price));
            } else {
                assert(price_in(pushed, c2) == price_in(pushed.skip(1), c2));
                assert(price_in(entries, c2) == price_in(entries.skip(1), c2));
            }
        }
    }
}

impl PriceRegistry {
    /// The latest price recorded for `c`, if any quote was ever recorded.
    pub open spec fn spec_price(self, c: u64) -> Option<Price> {
        price_in(self.entries@, c)
    }

    /// An empty registry: no currency has a recorded price yet.
    pub fn new() -> (r: PriceRegistry)
        ensures
            forall|c: u64| r.spec_price(c) is None,
    {
        PriceRegistry { entries: Vec::new() }
    }

    /// Read the latest price recorded for `currency_id`.
    pub fn price(&self, currency_id: u64) -> (r: Option<Price>)
        ensures
            r == self.spec_price(currency_id),
    {
        let n = self.entries.len();
        let mut i: usize = 0;
        proof {
            assert(self.entries@.skip(0) =~= self.entries@);
        }
        while i < n
            invariant
                i <= n,
                n == self.entries.len(),
                price_in(self.entries@, currency_id) == price_in(
                    self.entries@.skip(i as int),
                    currency_id,
                ),
            decreases n - i,
        {
            let entry = self.entries[i];
            proof {
                assert(self.entries@.skip(i as int)[0] == self.entries@[i as int]);
                assert(self.entries@.skip(i as int).skip(1) =~= self.entries@.skip(i as int + 1));
            }
            if entry.currency == currency_id {
                return Some(entry.price);
            }
            i = i + 1;
        }
        proof {
            assert(self.entries@.skip(n as int).len() == 0);
        }
        None
    }

    /// Record `new_price` as the latest price of `currency_id`, overwriting
    /// any earlier quote.
    pub fn set_price(&mut self, currency_id: u64, new_price: Price)
        ensures
            final(self).spec_price(currency_id) == Some(new_price),
            forall|c2: u64|
                c2 != currency_id ==> final(self).spec_price(c2) == old(self).spec_price(c2),
    {
        let n = self.entries.len();
        let mut i: usize = 0;
        while i < n
            invariant
                i <= n,
                n == self.entries.len(),
                self.entries@ == old(self).entries@,
                forall|k: int|
                    0 <= k < i ==> (#[trigger] self.entries@[k]).currency != currency_id,
            decreases n - i,
        {
            if self.entries[i].currency == currency_id {
                let entry = PriceEntry { currency: currency_id, price: new_price };
                proof {
                    lemma_price_in_update(self.entries@, i as int, entry);
                }
                self.entries[i] = entry;
                return ;
            }
            i = i + 1;
        }
        let entry = PriceEntry { currency: currency_id, price: new_price };
        proof {
            lemma_price_in_push(self.entries@, entry);
        }
        self.entries.push(entry);
    }
}

} // verus!
