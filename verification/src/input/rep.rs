//! Repeating a held key.

use crate::input::KeyInput;
use std::time::{Duration, Instant};
use vstd::prelude::*;

verus! {

#[verifier::external_type_specification]
#[verifier::external_body]
pub struct ExInstant(Instant);

/// What `Duration::as_nanos` returns for `d`: the whole number of nanoseconds it spans.
pub uninterp spec fn duration_nanos(d: Duration) -> u128;

/// `Duration::as_nanos` from std; its result is named by [`duration_nanos`].
#[verifier::external_body]
fn nanos(d: Duration) -> (r: u128)
    ensures
        r == duration_nanos(d),
{
    d.as_nanos()
}

/// `Duration::ZERO` from std: the empty span, which std documents as zero
/// nanoseconds long.
#[verifier::external_body]
fn zero_duration() -> (r: Duration)
    ensures
        duration_nanos(r) == 0,
{
    Duration::ZERO
}

/// `Instant::now` from std: the current reading of the monotonic clock.
/// Nothing is stated of the result, which depends on the time.
#[verifier::external_body]
fn now() -> Instant {
    Instant::now()
}

/// `Instant::checked_add` from std: `t` moved later by `d`, or `None` when the
/// platform cannot represent that instant. Nothing is stated of the result:
/// which instants can be represented depends on the platform.
#[verifier::external_body]
fn checked_later(t: Instant, d: Duration) -> Option<Instant> {
    t.checked_add(d)
}

/// `Instant::checked_duration_since` from std: how long after `earlier` the
/// instant `later` is, or `None` when it is before `earlier`. Nothing is stated
/// of the result, which depends on the clock readings it is given.
#[verifier::external_body]
fn checked_elapsed(later: Instant, earlier: Instant) -> Option<Duration> {
    later.checked_duration_since(earlier)
}

/// Whether a key held for `elapsed` nanoseconds past its repeat time (`None`
/// before that time) repeats on this tick, given the repeat period in nanoseconds.
pub open spec fn repeat_due_spec(elapsed: Option<u128>, period: u128) -> bool {
    match elapsed {
        Some(e) => e % period == 0,
        None => false,
    }
}

/// Whether a key held for `elapsed` nanoseconds past its repeat time (`None`
/// before that time) repeats on this tick: exactly on whole multiples of `period`.
pub fn repeat_due(elapsed: Option<u128>, period: u128) -> (r: bool)
    requires
        elapsed is Some ==> period != 0,
    ensures
        r == repeat_due_spec(elapsed, period),
{
    match elapsed {
        Some(e) => e % period == 0,
        None => false,
    }
}

/// The held key `key` if it repeats on a tick `elapsed` nanoseconds past its
/// repeat time (`None` before that time), else `None`.
pub open spec fn repeat_key_spec(key: KeyInput, elapsed: Option<u128>, period: u128) -> Option<KeyInput> {
    if repeat_due_spec(elapsed, period) {
        Some(key)
    } else {
        None
    }
}

/// The held key `key` if it repeats on this tick ([`repeat_due`]), else `None`.
pub fn repeat_key(key: KeyInput, elapsed: Option<u128>, period: u128) -> (r: Option<KeyInput>)
    requires
        elapsed is Some ==> period != 0,
    ensures
        r == repeat_key_spec(key, elapsed, period),
{
    if repeat_due(elapsed, period) {
        Some(key)
    } else {
        None
    }
}

/// Repeat a [`KeyInput`] while it is held down
#[derive(Debug, Clone, Copy, PartialEq, Eq, Hash)]
pub struct KeyRepeater {
    /// The key to repeat and the timestamp of when it will be to repeat
    ///
    /// Only the most recently pressed key can be repeated
    pub input: Option<(KeyInput, Instant)>,
    /// How long to wait before repeating a key input after the initial press
    pub start_delay: Duration,
    /// How long to wait between key input repetitions after `start_delay`
    pub period: Duration,
}

impl Default for KeyRepeater {
    fn default() -> (r: Self)
        ensures
            r.input is None,
            duration_nanos(r.start_delay) == 0,
            duration_nanos(r.period) == 0,
    {
        Self::new(zero_duration(), zero_duration())
    }
}

impl KeyRepeater {
    /// Construct a new [`KeyRepeater`] without an input initially
    pub fn new(start_delay: Duration, period: Duration) -> (r: Self)
        ensures
            r.input is None,
            r.start_delay == start_delay,
            r.period == period,
    {
        Self { input: None, start_delay, period }
    }

    /// The repeat period in whole nanoseconds.
    pub fn period_nanos(&self) -> (r: u128)
        ensures
            r == duration_nanos(self.period),
    {
        nanos(self.period)
    }

    /// Indicate that a key has been pressed and replace the held key
    ///
    /// The key is due to repeat `start_delay` after now; when that instant
    /// cannot be represented, no key is held.
    pub fn press(&mut self, input: KeyInput)
        ensures
            final(self).start_delay == old(self).start_delay,
            final(self).period == old(self).period,
            match final(self).input {
                Some((key, _)) => key == input,
                None => true,
            },
    {
        match checked_later(now(), self.start_delay) {
            Some(due) => {
                self.input = Some((input, due));
            },
            None => {
                self.input = None;
            },
        }
    }

    /// Indicate that a key has been released and clear the held key if it matches
    pub fn release(&mut self, input: &KeyInput)
        ensures
            final(self).start_delay == old(self).start_delay,
            final(self).period == old(self).period,
            final(self).input == match old(self).input {
                Some((key, _)) => if key == *input {
                    None
                } else {
                    old(self).input
                },
                None => None,
            },
    {
        let held = match &self.input {
            Some((key, _)) => *key == *input,
            None => false,
        };
        if held {
            self.input = None;
        }
    }

    /// Get the key input if there is one and this tick should repeat it
    ///
    /// The held key repeats when the time since it became due is a whole
    /// multiple of `period` ([`repeat_due`]): the result is what
    /// [`repeat_key`] gives for the held key, the nanoseconds elapsed since it
    /// became due as the clock reads now (`None` before then), and the period.
    pub fn check_repeat(&self) -> (r: Option<KeyInput>)
        requires
            self.input is Some ==> duration_nanos(self.period) != 0,
        ensures
            match self.input {
                Some((key, _)) => exists|elapsed: Option<u128>|
                    r == #[trigger] repeat_key_spec(key, elapsed, duration_nanos(self.period)),
                None => r is None,
            },
    {
        match self.input {
            Some((key, due)) => {
                let elapsed = match checked_elapsed(now(), due) {
                    Some(d) => Some(nanos(d)),
                    None => None,
                };
                repeat_key(key, elapsed, nanos(self.period))
            },
            None => None,
        }
    }
}

} // verus!
