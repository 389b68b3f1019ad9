//! The matcher's decisions, apart from its I/O: orders arrive in batches
//! (one read of the order log each); every order is matched as it arrives,
//! and at the end of a batch the book's aggregate is published if any order
//! came in, otherwise the matcher idles before reading again.
use vstd::prelude::*;

use crate::book::{lists_ladder, match_spec, match_order, totals_fit, Book};
use crate::types::{Fill, Order, Snapshot};

verus! {

/// The single writer of the book.
pub struct Matcher {
    pub book: Book,
    /// Whether an order was matched since the last end of a batch.
    pub unpublished: bool,
}

/// What to do at the end of a batch.
pub enum BatchEnd {
    /// Orders came in: store this aggregate of the book.
    Publish(Snapshot),
    /// Nothing came in: wait before reading again.
    Idle,
    /// Orders came in, but some level's total does not fit in a `u64`,
    /// so no aggregate can be formed.
    TotalsOverflow,
}

impl Matcher {
    /// A matcher with an empty book and nothing to publish.
    pub fn new() -> (s: Self)
        ensures
            s.book@.bids == Map::<u64, Seq<Order>>::empty(),
            s.book@.asks == Map::<u64, Seq<Order>>::empty(),
            !s.unpublished,
    {
        Matcher { book: Book::new(), unpublished: false }
    }

    /// Matches one order read from the log; gives the fills to announce.
    pub fn submit(&mut self, order: Order) -> (fills: Vec<Fill>)
        ensures
            (final(self).book@, fills@) == match_spec(old(self).book@, order),
            final(self).unpublished,
    {
        let fills = match_order(&mut self.book, order);
        self.unpublished = true;
        fills
    }

    /// Ends a batch: publish the aggregate if any order came in since the
    /// last batch ended, else idle. The book is left as it is.
    pub fn finish_batch(&mut self) -> (e: BatchEnd)
        ensures
            final(self).book == old(self).book,
            !final(self).unpublished,
            match e {
                BatchEnd::Publish(s) => {
                    &&& old(self).unpublished
                    &&& lists_ladder(old(self).book@.bids, s.bids@, true)
                    &&& lists_ladder(old(self).book@.asks, s.asks@, false)
                },
                BatchEnd::Idle => !old(self).unpublished,
                BatchEnd::TotalsOverflow => old(self).unpublished && !(totals_fit(
                    old(self).book@.bids,
                ) && totals_fit(old(self).book@.asks)),
            },
    {
        if !self.unpublished {
            return BatchEnd::Idle;
        }
        self.unpublished = false;
        if self.book.can_snapshot() {
            BatchEnd::Publish(self.book.snapshot())
        } else {
            BatchEnd::TotalsOverflow
        }
    }
}

} // verus!
