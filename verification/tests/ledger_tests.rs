use alerter::ledger::{TriggerCause, TriggerLedger};

#[test]
fn partition_splits_sides_and_sorts() {
    let thresholds: Vec<i64> = vec![110, 90, 100, 85, 105];
    let ledger = TriggerLedger::new(&thresholds, 99);
    assert_eq!(ledger.above, vec![100, 105, 110]);
    assert_eq!(ledger.below, vec![90, 85]);
}

#[test]
fn partition_drops_levels_equal_to_initial() {
    let thresholds: Vec<i64> = vec![100, 90, 110];
    let ledger = TriggerLedger::new(&thresholds, 100);
    assert_eq!(ledger.above, vec![110]);
    assert_eq!(ledger.below, vec![90]);
}

#[test]
fn partition_drops_duplicates() {
    let thresholds: Vec<i64> = vec![110, 110, 90, 90, 110];
    let ledger = TriggerLedger::new(&thresholds, 100);
    assert_eq!(ledger.above, vec![110]);
    assert_eq!(ledger.below, vec![90]);
}

#[test]
fn empty_threshold_set_is_exhausted() {
    let thresholds: Vec<i64> = Vec::new();
    let ledger = TriggerLedger::new(&thresholds, 100);
    assert!(ledger.is_exhausted());
}

#[test]
fn upward_jump_fires_nearest_level_first() {
    // above = [100, 105, 110], price jumps from 99 to 107 in one tick:
    // only the nearest level (100) fires; 105 fires on the next tick.
    let thresholds: Vec<i64> = vec![100, 105, 110];
    let mut ledger = TriggerLedger::new(&thresholds, 99);
    let events = ledger.evaluate(107);
    assert_eq!(events.len(), 1);
    assert_eq!(events[0].trigger, 100);
    assert_eq!(events[0].cause, TriggerCause::BreakAboveEq);
    let events = ledger.evaluate(107);
    assert_eq!(events.len(), 1);
    assert_eq!(events[0].trigger, 105);
    assert_eq!(events[0].cause, TriggerCause::BreakAboveEq);
    assert_eq!(ledger.above, vec![110]);
}

#[test]
fn downward_drop_fires_nearest_level_first() {
    // below = [90, 85] (descending), price drops from 95 to 80:
    // 90 fires first, then 85 on the next evaluation.
    let thresholds: Vec<i64> = vec![85, 90];
    let mut ledger = TriggerLedger::new(&thresholds, 95);
    assert_eq!(ledger.below, vec![90, 85]);
    let events = ledger.evaluate(80);
    assert_eq!(events.len(), 1);
    assert_eq!(events[0].trigger, 90);
    assert_eq!(events[0].cause, TriggerCause::BreakBelowEq);
    let events = ledger.evaluate(80);
    assert_eq!(events.len(), 1);
    assert_eq!(events[0].trigger, 85);
    assert_eq!(events[0].cause, TriggerCause::BreakBelowEq);
    assert!(ledger.is_exhausted());
}

#[test]
fn quiet_price_fires_nothing_twice() {
    // A price that newly satisfies no remaining threshold produces an empty
    // event list, and evaluating it again produces an empty list again.
    let thresholds: Vec<i64> = vec![100, 90];
    let mut ledger = TriggerLedger::new(&thresholds, 95);
    assert!(ledger.evaluate(95).is_empty());
    assert!(ledger.evaluate(95).is_empty());
    assert_eq!(ledger.above, vec![100]);
    assert_eq!(ledger.below, vec![90]);
}

#[test]
fn exact_touch_fires() {
    let thresholds: Vec<i64> = vec![100, 90];
    let mut ledger = TriggerLedger::new(&thresholds, 95);
    let events = ledger.evaluate(100);
    assert_eq!(events.len(), 1);
    assert_eq!(events[0].trigger, 100);
    assert_eq!(events[0].cause, TriggerCause::BreakAboveEq);
    let events = ledger.evaluate(90);
    assert_eq!(events.len(), 1);
    assert_eq!(events[0].trigger, 90);
    assert_eq!(events[0].cause, TriggerCause::BreakBelowEq);
}

#[test]
fn fired_level_never_fires_again() {
    let thresholds: Vec<i64> = vec![100];
    let mut ledger = TriggerLedger::new(&thresholds, 99);
    let mut fired: usize = 0;
    for price in [107, 99, 120, 100, 150] {
        fired += ledger.evaluate(price).len();
    }
    assert_eq!(fired, 1);
    assert!(ledger.is_exhausted());
}
