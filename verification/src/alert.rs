//! The alert dispatcher: turns a crossing into the text the operator reads
//! and decides when the looping alarm sound starts and stops.
//!
//! The dispatcher never touches an audio device itself. It tracks whether a
//! sound was configured and whether the alarm loop should be sounding, and
//! every announcement says whether the caller must (re)start the loop. The
//! caller that owns the playback session performs the actual start and stop.

use vstd::prelude::*;

use crate::ledger::TriggerCause;

verus! {

/// The headline line of an alert for `symbol`.
pub open spec fn spec_headline(symbol: Seq<char>) -> Seq<char> {
    "!!! NEW ALERT for "@ + symbol + " !!!"@
}

/// The body line of an alert: names the symbol, the threshold (already
/// rendered as text by the caller, which knows the display scale) and the
/// direction it broke in.
pub open spec fn spec_alert_message(
    symbol: Seq<char>,
    trigger_text: Seq<char>,
    cause: TriggerCause,
) -> Seq<char> {
    match cause {
        TriggerCause::BreakAboveEq => "> The price of "@ + symbol
            + " broke over the trigger price "@ + trigger_text + "!!!"@,
        TriggerCause::BreakBelowEq => "> The price of "@ + symbol
            + " broke below the trigger price "@ + trigger_text + "!!!"@,
    }
}

/// An alert ready for delivery: the two lines to print, and whether the
/// looping alarm sound must be (re)started.
pub struct AlertOutput {
    pub headline: String,
    pub message: String,
    pub restart_sound: bool,
}

/// Dispatcher state: whether a sound was configured at startup, and whether
/// the alarm loop should currently be sounding.
pub struct Alerter {
    pub sound_enabled: bool,
    pub sound_playing: bool,
}

impl Alerter {
    /// The alarm can only be sounding if a sound was configured.
    pub open spec fn wf(self) -> bool {
        self.sound_playing ==> self.sound_enabled
    }

    /// Text-only mode: no sound was configured.
    pub fn new() -> (a: Alerter)
        ensures
            a == (Alerter { sound_enabled: false, sound_playing: false }),
    {
        Alerter { sound_enabled: false, sound_playing: false }
    }

    /// Sound mode: the caller has already resolved and opened the configured
    /// audio resource (a startup-fatal step on failure), so alerts will ask
    /// for the alarm loop.
    pub fn with_sound() -> (a: Alerter)
        ensures
            a == (Alerter { sound_enabled: true, sound_playing: false }),
    {
        Alerter { sound_enabled: true, sound_playing: false }
    }

    /// Produces the alert for one crossing. The text is exactly what
    /// `spec_headline` and `spec_alert_message` state; the alarm loop is
    /// asked for whenever sound is enabled; each announcement restarts the
    /// loop rather than layering another instance over it.
    pub fn output_alert(&mut self, symbol: &str, trigger_text: &str, cause: TriggerCause) -> (out:
        AlertOutput)
        ensures
            out.headline@ == spec_headline(symbol@),
            out.message@ == spec_alert_message(symbol@, trigger_text@, cause),
            out.restart_sound == old(self).sound_enabled,
            final(self).sound_enabled == old(self).sound_enabled,
            final(self).sound_playing == old(self).sound_enabled,
    {
        let mut headline = String::from_str("!!! NEW ALERT for ");
        headline.append(symbol);
        headline.append(" !!!");
        let mut message = String::from_str("> The price of ");
        message.append(symbol);
        match cause {
            TriggerCause::BreakAboveEq => message.append(" broke over the trigger price "),
            TriggerCause::BreakBelowEq => message.append(" broke below the trigger price "),
        }
        message.append(trigger_text);
        message.append("!!!");
        let restart_sound = self.sound_enabled;
        self.sound_playing = self.sound_enabled;
        AlertOutput { headline, message, restart_sound }
    }

    /// Silences the alarm loop. When sound was never configured this is a
    /// no-op, not a failure.
    pub fn stop_sound(&mut self)
        requires
            old(self).wf(),
        ensures
            final(self).sound_enabled == old(self).sound_enabled,
            final(self).sound_playing == false,
            !old(self).sound_enabled ==> *final(self) == *old(self),
    {
        self.sound_playing = false;
    }
}

} // verus!
