//! The foreground-facing side of the live price feed.
//!
//! A background sampler (outside this library) fetches prices and delivers at
//! most one pending sample per read. `LivePrice` keeps the most recently
//! observed value so that the monitor loop always reads without blocking.

use vstd::prelude::*;

verus! {

/// Cache of the most recently observed price.
///
/// `last` is `None`, the "undefined" sentinel, until the first sample
/// arrives; after that it always holds the newest published price.
pub struct LivePrice {
    pub last: Option<i64>,
}

impl LivePrice {
    /// A fresh feed: no sample has arrived yet, so the cached price is
    /// undefined.
    pub fn new() -> (feed: LivePrice)
        ensures
            feed.last == None::<i64>,
    {
        LivePrice { last: None }
    }

    /// Non-blocking read of the freshest price. If a new sample has arrived
    /// since the previous read it overwrites the cached value and is
    /// returned; otherwise the previously cached value is returned
    /// (undefined before the first sample lands).
    pub fn last_price(&mut self, sample: Option<i64>) -> (price: Option<i64>)
        ensures
            final(self).last == (if sample is Some {
                sample
            } else {
                old(self).last
            }),
            price == final(self).last,
    {
        if let Some(p) = sample {
            self.last = Some(p);
        }
        self.last
    }
}

} // verus!
