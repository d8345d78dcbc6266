//! The pacing of requests: an interval between requests that gives way when
//! the service complains and recovers when it does not, and a deadline that
//! is counted from the last request rather than from the end of the work
//! done since.
//!
//! All times are in nanoseconds. Instants are counted from an origin that
//! the caller chooses and keeps.

use vstd::prelude::*;

verus! {

/// Nanoseconds in a millisecond.
pub const NANOS_PER_MILLI: u128 = 1000000;

/// The latest instant that can be told: half of what 128 bits hold, so that
/// a deadline behind it can still be told.
pub const LAST_INSTANT: u128 = 0x7fff_ffff_ffff_ffff_ffff_ffff_ffff_ffff;

/// The pacing of the requests: the interval between two of them, its
/// bounds, and the instant of the last one.
pub struct RateControl {
    interval: u128,
    min_interval: u128,
    max_interval: u128,
    last_timestamp: u128,
}

/// The state of the pacing.
pub struct RateView {
    /// Time between two requests.
    pub interval: u128,
    /// The interval does not go below this when it is shortened.
    pub min_interval: u128,
    /// The interval does not go above this when it is stretched.
    pub max_interval: u128,
    /// Instant of the last request.
    pub last_timestamp: u128,
}

/// The interval after the service answered well: nine tenths of it, but not
/// less than the minimum.
pub open spec fn accelerated(interval: u128, min_interval: u128) -> int {
    if interval * 9 / 10 >= min_interval {
        interval * 9 / 10
    } else {
        min_interval as int
    }
}

/// The interval after the service complained: four thirds of it, but not
/// more than the maximum.
pub open spec fn decelerated(interval: u128, max_interval: u128) -> int {
    if interval * 4 / 3 <= max_interval {
        interval * 4 / 3
    } else {
        max_interval as int
    }
}

impl RateView {
    /// The instant before which no request is to be sent.
    pub open spec fn deadline(self) -> int {
        self.last_timestamp + self.interval
    }

    /// What `wait` makes of the state at the instant `now`, and what it
    /// answers: before the deadline the time that is left, and nothing
    /// changes; from the deadline on, nothing, and `now` is the instant of the
    /// last request.
    pub open spec fn waited(self, now: u128) -> (RateView, Option<u128>) {
        if now < self.deadline() {
            (self, Some((self.deadline() - now) as u128))
        } else {
            (RateView { last_timestamp: now, ..self }, None)
        }
    }

    /// The limits of the state: the bounds of the interval come from
    /// milliseconds in 64 bits, the interval is at most twice the larger of
    /// them, and the last request is not behind the latest instant.
    pub open spec fn wf(self) -> bool {
        &&& self.min_interval <= u64::MAX * 1000000
        &&& self.max_interval <= u64::MAX * 1000000
        &&& self.interval <= 2 * u64::MAX * 1000000
        &&& self.last_timestamp <= LAST_INSTANT
    }
}

impl View for RateControl {
    type V = RateView;

    closed spec fn view(&self) -> RateView {
        RateView {
            interval: self.interval,
            min_interval: self.min_interval,
            max_interval: self.max_interval,
            last_timestamp: self.last_timestamp,
        }
    }
}

impl RateControl {
    /// A pacing between `min_interval_ms` and `max_interval_ms` milliseconds
    /// that starts at twice the minimum, with `now` as the instant of the last
    /// request.
    pub fn new(min_interval_ms: u64, max_interval_ms: u64, now: u128) -> (rate: RateControl)
        ensures
            rate@.min_interval == min_interval_ms * 1000000,
            rate@.max_interval == max_interval_ms * 1000000,
            rate@.interval == 2 * rate@.min_interval,
            rate@.last_timestamp == now,
            now <= LAST_INSTANT ==> rate@.wf(),
    {
        let min_interval = min_interval_ms as u128 * NANOS_PER_MILLI;
        let max_interval = max_interval_ms as u128 * NANOS_PER_MILLI;
        RateControl {
            interval: min_interval * 2,
            min_interval,
            max_interval,
            last_timestamp: now,
        }
    }

    /// Time between two requests, in nanoseconds.
    pub fn interval(&self) -> (interval: u128)
        ensures
            interval == self@.interval,
    {
        self.interval
    }

    /// Instant of the last request.
    pub fn last_timestamp(&self) -> (instant: u128)
        ensures
            instant == self@.last_timestamp,
    {
        self.last_timestamp
    }

    /// The instant before which no request is to be sent.
    pub fn deadline(&self) -> (instant: u128)
        requires
            self@.deadline() <= u128::MAX,
        ensures
            instant == self@.deadline(),
    {
        self.last_timestamp + self.interval
    }

    /// Asks at the instant `now` whether a request may be sent. Before the
    /// deadline the answer is the time to wait, and the question is to be
    /// asked again after it. From the deadline on the answer is `None`: the
    /// request may go, and `now` is recorded as its instant.
    pub fn wait(&mut self, now: u128) -> (pause: Option<u128>)
        requires
            old(self)@.deadline() <= u128::MAX,
        ensures
            (final(self)@, pause) == old(self)@.waited(now),
            old(self)@.wf() && now <= LAST_INSTANT ==> final(self)@.wf(),
    {
        let deadline = self.last_timestamp + self.interval;
        if now < deadline {
            Some(deadline - now)
        } else {
            self.last_timestamp = now;
            None
        }
    }

    /// Shortens the interval after the service answered well.
    pub fn accelerate(&mut self)
        requires
            old(self)@.interval * 9 <= u128::MAX,
        ensures
            final(self)@ == (RateView {
                interval: accelerated(old(self)@.interval, old(self)@.min_interval) as u128,
                ..old(self)@
            }),
            old(self)@.wf() ==> final(self)@.wf(),
    {
        let shorter = self.interval * 9 / 10;
        self.interval = if shorter >= self.min_interval {
            shorter
        } else {
            self.min_interval
        };
    }

    /// Stretches the interval after the service complained.
    pub fn decelerate(&mut self)
        requires
            old(self)@.interval * 4 <= u128::MAX,
        ensures
            final(self)@ == (RateView {
                interval: decelerated(old(self)@.interval, old(self)@.max_interval) as u128,
                ..old(self)@
            }),
            old(self)@.wf() ==> final(self)@.wf(),
    {
        let longer = self.interval * 4 / 3;
        self.interval = if longer <= self.max_interval {
            longer
        } else {
            self.max_interval
        };
    }

    /// Puts the instant of the last request off by `pause`, so that the next
    /// request is due that much later.
    pub fn postpone(&mut self, pause: u128)
        requires
            old(self)@.last_timestamp + pause <= u128::MAX,
        ensures
            final(self)@ == (RateView {
                last_timestamp: (old(self)@.last_timestamp + pause) as u128,
                ..old(self)@
            }),
            old(self)@.wf() && old(self)@.last_timestamp + pause <= LAST_INSTANT
                ==> final(self)@.wf(),
    {
        self.last_timestamp = self.last_timestamp + pause;
    }
}

/// Two requests in a row are one interval apart, however long the work
/// between them took, as long as it took less than the interval: after a
/// request at `first` and work that lasted `work`, the wait asks for the rest
/// of the interval, and the request goes at `first` plus the interval. Work
/// that took the interval or longer is followed by the next request at once.
pub proof fn lemma_deadline_discipline(rate: RateView, first: u128, work: u128)
    requires
        first >= rate.deadline(),
        first + work <= u128::MAX,
        first + rate.interval <= u128::MAX,
    ensures
        ({
            let (sent, go) = rate.waited(first);
            let (asked, pause) = sent.waited((first + work) as u128);
            let (resent, again) = asked.waited((first + rate.interval) as u128);
            &&& go is None
            &&& sent.last_timestamp == first
            &&& work < rate.interval ==> {
                &&& pause == Some((rate.interval - work) as u128)
                &&& again is None
                &&& resent.last_timestamp == first + rate.interval
            }
            &&& work >= rate.interval ==> {
                &&& pause is None
                &&& asked.last_timestamp == first + work
            }
        }),
{
}

} // verus!
