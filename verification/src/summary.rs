//! Depth-limited summaries of the book, produced for periodic
//! republication to downstream consumers.

use vstd::prelude::*;

use crate::book::{levels_view, BookView, OrderBook};
use crate::level::{LevelView, LimitPrice};

verus! {

/// How many levels of each side a published summary carries.
pub const SUMMARY_DEPTH: usize = 10;

/// One level projected to what consumers see: its price and aggregated
/// size.
#[derive(Clone, Copy, PartialEq, Eq, Structural, Debug)]
pub struct SummaryLevel {
    pub price: u64,
    pub size: u64,
}

/// A point-in-time, depth-limited view of the book: the spread and the
/// best levels of each side, best first.
#[derive(Clone, Debug)]
pub struct Summary {
    /// Best ask price minus best bid price, or 0 when either side is
    /// empty (no two-sided market).
    pub spread: i128,
    pub bids: Vec<SummaryLevel>,
    pub asks: Vec<SummaryLevel>,
}

pub open spec fn summary_of(l: LevelView) -> SummaryLevel {
    SummaryLevel { price: l.price, size: l.size }
}

/// The first `depth` levels of one side, projected for consumers.
pub open spec fn top_levels(levels: Seq<LevelView>, depth: int) -> Seq<SummaryLevel> {
    levels.take(
        if depth < levels.len() {
            depth
        } else {
            levels.len() as int
        },
    ).map_values(|l: LevelView| summary_of(l))
}

/// Best ask price minus best bid price; 0 when either side is empty.
pub open spec fn spec_spread(b: BookView) -> int {
    if b.bids.len() > 0 && b.asks.len() > 0 {
        b.asks[0].price - b.bids[0].price
    } else {
        0
    }
}

fn take_summary(levels: &Vec<LimitPrice>, depth: usize) -> (out: Vec<SummaryLevel>)
    ensures
        out@ == top_levels(levels_view(levels@), depth as int),
{
    let mut out: Vec<SummaryLevel> = Vec::new();
    let n = if depth < levels.len() {
        depth
    } else {
        levels.len()
    };
    let mut i: usize = 0;
    while i < n
        invariant
            i <= n <= levels@.len(),
            n <= depth,
            (depth as int) < levels@.len() ==> n == depth,
            (depth as int) >= levels@.len() ==> n == levels@.len(),
            out@.len() == i as int,
            forall|k: int| 0 <= k < i ==> out@[k] == summary_of(levels_view(levels@)[k]),
        decreases n - i,
    {
        let l = &levels[i];
        out.push(SummaryLevel { price: l.price, size: l.size });
        proof {
            assert(levels_view(levels@)[i as int] == levels@[i as int]@);
        }
        i = i + 1;
    }
    proof {
        let lv = levels_view(levels@);
        let d: int = if (depth as int) < lv.len() {
            depth as int
        } else {
            lv.len() as int
        };
        assert forall|k: int| 0 <= k < n implies top_levels(lv, depth as int)[k] == out@[k] by {
            assert(lv.take(d)[k] == lv[k]);
        }
        assert(out@ =~= top_levels(lv, depth as int));
    }
    out
}

impl OrderBook {
    /// A consistent, depth-limited read of the book: the spread and the
    /// first `depth` levels of each side, best first. Run it under the
    /// same exclusion domain as `apply`, so that no mid-mutation state is
    /// ever read.
    pub fn snapshot(&self, depth: usize) -> (s: Summary)
        ensures
            s.spread == spec_spread(self@),
            s.bids@ == top_levels(self@.bids, depth as int),
            s.asks@ == top_levels(self@.asks, depth as int),
    {
        let spread: i128 = if self.bids.len() > 0 && self.asks.len() > 0 {
            proof {
                assert(self@.asks[0] == self.asks@[0]@);
                assert(self@.bids[0] == self.bids@[0]@);
            }
            self.asks[0].price as i128 - self.bids[0].price as i128
        } else {
            0
        };
        let bids = take_summary(&self.bids, depth);
        let asks = take_summary(&self.asks, depth);
        Summary { spread, bids, asks }
    }
}

/// The summarization service: it produces the bounded-depth samples that
/// the outbound stream republishes at a fixed interval.
pub struct OrderbookService;

impl OrderbookService {
    /// One summary sample at the service's fixed depth. The sampling
    /// timer, the lock around the shared book and the outbound channel all
    /// live with the caller; this is the consistent read they guard.
    pub fn book_summary(&self, book: &OrderBook) -> (s: Summary)
        ensures
            s.spread == spec_spread(book@),
            s.bids@ == top_levels(book@.bids, SUMMARY_DEPTH as int),
            s.asks@ == top_levels(book@.asks, SUMMARY_DEPTH as int),
    {
        book.snapshot(SUMMARY_DEPTH)
    }
}

} // verus!
