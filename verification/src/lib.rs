//! Watches a single market price and raises an alert when it crosses any of a
//! set of one-shot threshold levels.
//!
//! Prices are fixed-point integers: the caller picks a scale (for example,
//! hundredths of the quote currency) and hands every price and threshold to
//! the library already scaled. The library never touches the network, the
//! audio device or the clock; it holds the decision logic: which threshold
//! fires on which price, what each alert says, when the alarm sound starts
//! and stops. That logic is what the proofs cover.

pub mod alert;
pub mod feed;
pub mod ledger;
pub mod monitor;
