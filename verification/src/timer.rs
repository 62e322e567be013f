//! Timers over a clock that the caller reads: every moment is a count of
//! milliseconds since some start that the caller has chosen.

use vstd::prelude::*;

verus! {

/// A moment, or a span of time, in milliseconds.
pub type Millis = u64;

/// The time that has passed at `now` since `since`; none where the clock
/// reads less than it did.
pub open spec fn elapsed(since: Millis, now: Millis) -> int {
    if now >= since {
        now - since
    } else {
        0
    }
}

/// A timer that rings once its span has passed since it was last reset, or
/// at once where it was made to ring by hand.
#[derive(Clone, Copy, Debug)]
pub struct Timer {
    duration: Millis,
    last: Millis,
    forced: bool,
}

impl Timer {
    /// The span after which the timer rings.
    pub closed spec fn duration(&self) -> Millis {
        self.duration
    }

    /// When the timer was last reset.
    pub closed spec fn last(&self) -> Millis {
        self.last
    }

    /// Whether the timer was made to ring by hand since its last reset.
    pub closed spec fn forced(&self) -> bool {
        self.forced
    }

    /// The timer with this span that counts from `now`.
    pub closed spec fn new_spec(duration: Millis, now: Millis) -> Timer {
        Timer { duration, last: now, forced: false }
    }

    /// A timer that counts from `now` has its span, was reset at `now`,
    /// and was not made to ring by hand.
    pub proof fn lemma_new_spec(duration: Millis, now: Millis)
        ensures
            Timer::new_spec(duration, now).duration() == duration,
            Timer::new_spec(duration, now).last() == now,
            !Timer::new_spec(duration, now).forced(),
    {
    }

    /// Whether the timer rings at `now`.
    pub open spec fn rings(&self, now: Millis) -> bool {
        self.forced() || elapsed(self.last(), now) >= self.duration()
    }

    /// A timer that counts from `now`.
    pub fn new(duration: Millis, now: Millis) -> (r: Timer)
        ensures
            r == Timer::new_spec(duration, now),
            r.duration() == duration,
            r.last() == now,
            !r.forced(),
    {
        Timer { duration, last: now, forced: false }
    }

    /// Starts the count again from `now`.
    pub fn reset(&mut self, now: Millis)
        ensures
            *final(self) == Timer::new_spec(old(self).duration(), now),
            final(self).duration() == old(self).duration(),
            final(self).last() == now,
            !final(self).forced(),
    {
        self.last = now;
        self.forced = false;
    }

    /// Whether the timer rings at `now`.
    pub fn ringing(&self, now: Millis) -> (r: bool)
        ensures
            r == self.rings(now),
    {
        if self.forced {
            true
        } else if now >= self.last {
            now - self.last >= self.duration
        } else {
            self.duration == 0
        }
    }

    /// Makes the timer ring until it is reset.
    pub fn ring_manual(&mut self)
        ensures
            final(self).duration() == old(self).duration(),
            final(self).last() == old(self).last(),
            final(self).forced(),
    {
        self.forced = true;
    }
}

} // verus!
