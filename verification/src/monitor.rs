//! The monitor driver: one tick of the fixed-cadence loop.
//!
//! The loop around it (outside this library) wakes on the sampling interval,
//! collects at most one pending sample from the background price tracker,
//! hands it to `tick`, and delivers the returned crossings through the alert
//! dispatcher. All the decisions of a tick, which price counts as freshest
//! and which thresholds fire on it, are made and proved here.

use vstd::prelude::*;

use crate::alert::Alerter;
use crate::feed::LivePrice;
use crate::ledger::Crossing;
use crate::ledger::TriggerLedger;

verus! {

/// Everything the monitor loop owns: the price cache it reads, the ledger it
/// consumes thresholds from, and the dispatcher it announces through.
pub struct Monitor {
    pub feed: LivePrice,
    pub ledger: TriggerLedger,
    pub alerter: Alerter,
}

impl Monitor {
    pub open spec fn wf(self) -> bool {
        self.ledger.wf() && self.alerter.wf()
    }

    /// Assembles the system against the initial observed price: the
    /// thresholds are partitioned into the ledger's two sides, the price
    /// cache starts undefined, and the dispatcher starts quiet, in sound
    /// mode exactly when a sound was configured.
    pub fn new(thresholds: &Vec<i64>, initial: i64, sound: bool) -> (m: Monitor)
        ensures
            m.wf(),
            m.feed.last == None::<i64>,
            forall|t: i64|
                #[trigger] m.ledger.model().above.contains(t) <==> thresholds@.contains(t)
                    && t > initial,
            forall|t: i64|
                #[trigger] m.ledger.model().below.contains(t) <==> thresholds@.contains(t)
                    && t < initial,
            m.alerter.sound_enabled == sound,
            m.alerter.sound_playing == false,
    {
        Monitor {
            feed: LivePrice::new(),
            ledger: TriggerLedger::new(thresholds, initial),
            alerter: if sound {
                Alerter::with_sound()
            } else {
                Alerter::new()
            },
        }
    }

    /// One tick: pull the freshest price from the feed and, if a price has
    /// been observed at all, evaluate it against the ledger. Before the
    /// first sample lands the cached price is undefined and nothing can
    /// fire. The dispatcher is untouched: the caller announces each
    /// returned crossing through it.
    pub fn tick(&mut self, sample: Option<i64>) -> (events: Vec<Crossing>)
        requires
            old(self).wf(),
        ensures
            final(self).wf(),
            final(self).feed.last == (if sample is Some {
                sample
            } else {
                old(self).feed.last
            }),
            match final(self).feed.last {
                Some(p) => final(self).ledger.model() == old(self).ledger.model().step(p)
                    && events@ == old(self).ledger.model().events(p),
                None => final(self).ledger == old(self).ledger && events@ == Seq::<
                    Crossing,
                >::empty(),
            },
            final(self).alerter == old(self).alerter,
    {
        let price = self.feed.last_price(sample);
        match price {
            Some(p) => self.ledger.evaluate(p),
            None => Vec::new(),
        }
    }

    /// Whether every threshold has fired; the loop may stop once this holds,
    /// since an exhausted ledger never fires again.
    pub fn is_exhausted(&self) -> (r: bool)
        ensures
            r == (self.ledger.model().above.len() == 0 && self.ledger.model().below.len() == 0),
    {
        self.ledger.is_exhausted()
    }
}

} // verus!
