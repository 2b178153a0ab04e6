use alerter::feed::LivePrice;
use alerter::ledger::TriggerCause;
use alerter::monitor::Monitor;

#[test]
fn feed_is_undefined_before_first_sample() {
    let mut feed = LivePrice::new();
    assert_eq!(feed.last_price(None), None);
    assert_eq!(feed.last, None);
}

#[test]
fn feed_keeps_the_latest_sample() {
    let mut feed = LivePrice::new();
    assert_eq!(feed.last_price(Some(101)), Some(101));
    // no new sample: the cached value is returned again
    assert_eq!(feed.last_price(None), Some(101));
    // a new sample overwrites the cached value
    assert_eq!(feed.last_price(Some(99)), Some(99));
    assert_eq!(feed.last_price(None), Some(99));
}

#[test]
fn tick_without_any_sample_fires_nothing() {
    let thresholds: Vec<i64> = vec![100, 90];
    let mut monitor = Monitor::new(&thresholds, 95, false);
    assert!(monitor.tick(None).is_empty());
    assert!(monitor.tick(None).is_empty());
    assert!(!monitor.is_exhausted());
}

#[test]
fn tick_evaluates_the_freshest_price() {
    let thresholds: Vec<i64> = vec![100, 105, 90];
    let mut monitor = Monitor::new(&thresholds, 95, false);
    let events = monitor.tick(Some(107));
    assert_eq!(events.len(), 1);
    assert_eq!(events[0].trigger, 100);
    assert_eq!(events[0].cause, TriggerCause::BreakAboveEq);
    // no new sample: the cached price 107 is evaluated again
    let events = monitor.tick(None);
    assert_eq!(events.len(), 1);
    assert_eq!(events[0].trigger, 105);
    let events = monitor.tick(Some(80));
    assert_eq!(events.len(), 1);
    assert_eq!(events[0].trigger, 90);
    assert_eq!(events[0].cause, TriggerCause::BreakBelowEq);
    assert!(monitor.is_exhausted());
    assert!(monitor.tick(Some(200)).is_empty());
}

#[test]
fn monitor_owns_a_quiet_dispatcher_until_asked() {
    let thresholds: Vec<i64> = vec![100];
    let mut monitor = Monitor::new(&thresholds, 95, true);
    assert!(monitor.alerter.sound_enabled);
    assert!(!monitor.alerter.sound_playing);
    let events = monitor.tick(Some(100));
    assert_eq!(events.len(), 1);
    // announcing is the caller's move; the tick itself starts no sound
    assert!(!monitor.alerter.sound_playing);
    let out = monitor.alerter.output_alert("ETHUSDT", "100", events[0].cause);
    assert!(out.restart_sound);
    assert!(monitor.alerter.sound_playing);
}
