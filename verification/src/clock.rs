//! Hybrid logical time.

use vstd::prelude::*;

use crate::order::Key;

verus! {

/// Logical ticks in a physical millisecond before the counter carries into the next one.
pub const LOGICAL_PER_MILLI: u32 = 1000;

/// A timestamp: physical milliseconds, and a counter that tells apart what falls into one of them.
#[derive(Clone, Copy, Debug, PartialEq, Eq, Structural)]
pub struct Hlc {
    pub millis: i64,
    pub logical: u32,
}

impl Hlc {
    /// This timestamp is earlier.
    pub open spec fn earlier(self, other: Hlc) -> bool {
        self.millis < other.millis || self.millis == other.millis && self.logical < other.logical
    }

    /// This timestamp is earlier.
    pub fn is_earlier(&self, other: &Hlc) -> (r: bool)
        ensures
            r == self.earlier(*other),
    {
        self.millis < other.millis || self.millis == other.millis && self.logical < other.logical
    }
}

/// The later of the two.
pub open spec fn later(a: Hlc, b: Hlc) -> Hlc {
    if a.earlier(b) {
        b
    } else {
        a
    }
}

impl Key for Hlc {
    type Model = Hlc;

    open spec fn model(&self) -> Hlc {
        *self
    }

    open spec fn before(a: Hlc, b: Hlc) -> bool {
        a.earlier(b)
    }

    proof fn before_irreflexive(a: Hlc) {
    }

    proof fn before_transitive(a: Hlc, b: Hlc, c: Hlc) {
    }

    proof fn before_total(a: Hlc, b: Hlc) {
    }

    fn less(&self, other: &Hlc) -> (r: bool) {
        self.is_earlier(other)
    }

    fn duplicate(&self) -> (r: Hlc) {
        *self
    }
}

/// The clock that stamps what a replica mints.
#[derive(Clone, Copy, Debug, PartialEq, Eq, Structural)]
pub struct HlcClock {
    pub last_millis: i64,
    pub logical: u32,
}

impl Default for HlcClock {
    fn default() -> (r: HlcClock)
        ensures
            r@ == (Hlc { millis: 0, logical: 0 }),
    {
        HlcClock { last_millis: 0, logical: 0 }
    }
}

impl View for HlcClock {
    type V = Hlc;

    open spec fn view(&self) -> Hlc {
        Hlc { millis: self.last_millis, logical: self.logical }
    }
}

/// The timestamp after `last`, at this physical reading: the reading itself where it has advanced, or else one more
/// logical tick.
pub open spec fn ticked(last: Hlc, now_millis: i64) -> Hlc {
    if now_millis > last.millis {
        Hlc { millis: now_millis, logical: 0 }
    } else {
        Hlc {
            millis: (last.millis + (last.logical + 1) / LOGICAL_PER_MILLI as int) as i64,
            logical: ((last.logical + 1) % LOGICAL_PER_MILLI as int) as u32,
        }
    }
}

/// There is a timestamp after `last` at this physical reading.
pub open spec fn can_tick(last: Hlc, now_millis: i64) -> bool {
    now_millis > last.millis || last.logical < u32::MAX && last.millis + (last.logical + 1) / LOGICAL_PER_MILLI as int <= i64::MAX
}

impl HlcClock {
    /// There is a next timestamp at this physical reading.
    pub fn has_next(&self, now_millis: i64) -> (r: bool)
        ensures
            r == can_tick(self@, now_millis),
    {
        now_millis > self.last_millis || self.logical < u32::MAX && self.last_millis as i128 + ((self.logical + 1)
            / LOGICAL_PER_MILLI) as i128 <= i64::MAX as i128
    }

    /// The next timestamp, which is later than every one before it.
    pub fn next(&mut self, now_millis: i64) -> (r: Hlc)
        requires
            can_tick(old(self)@, now_millis),
        ensures
            r == ticked(old(self)@, now_millis),
            final(self)@ == r,
            old(self)@.earlier(r),
    {
        let ghost last = self@;
        if now_millis > self.last_millis {
            self.last_millis = now_millis;
            self.logical = 0;
        } else {
            self.logical = self.logical + 1;
            let ghost total: int = last.logical + 1;
            while self.logical >= LOGICAL_PER_MILLI
                invariant
                    last.millis <= self.last_millis,
                    total == last.logical + 1,
                    total == (self.last_millis - last.millis) * LOGICAL_PER_MILLI + self.logical,
                    last.millis + total / (LOGICAL_PER_MILLI as int) <= i64::MAX,
                decreases self.logical,
            {
                self.last_millis = self.last_millis + 1;
                self.logical = self.logical - LOGICAL_PER_MILLI;
            }
            assert(total / 1000 == self.last_millis - last.millis && total % 1000 == self.logical);
        }
        Hlc { millis: self.last_millis, logical: self.logical }
    }

    /// Takes note of a timestamp that was received: what is minted from here on is later.
    pub fn observe(&mut self, at: Hlc)
        ensures
            final(self)@ == later(old(self)@, at),
    {
        let own = Hlc { millis: self.last_millis, logical: self.logical };
        if own.is_earlier(&at) {
            self.last_millis = at.millis;
            self.logical = at.logical;
        }
    }
}

/// Time goes on: the next timestamp is later, whatever the physical reading, and its counter stays within its three
/// digits; and a reading that has advanced is taken as it is.
pub proof fn next_is_strictly_monotonic(last: Hlc, now_millis: i64)
    requires
        can_tick(last, now_millis),
    ensures
        last.earlier(ticked(last, now_millis)),
        ticked(last, now_millis).logical < LOGICAL_PER_MILLI,
        now_millis > last.millis ==> ticked(last, now_millis) == (Hlc { millis: now_millis, logical: 0 }),
{
}

/// Receiving a timestamp takes the clock to the later of the two, and never back.
pub proof fn observe_never_regresses(last: Hlc, at: Hlc)
    ensures
        !later(last, at).earlier(last),
        !later(last, at).earlier(at),
        later(last, at) == last || later(last, at) == at,
{
}

/// What is minted after a timestamp was received is later than both it and everything before it.
pub proof fn a_mint_is_past_what_was_received(last: Hlc, at: Hlc, now_millis: i64)
    requires
        can_tick(later(last, at), now_millis),
    ensures
        last.earlier(ticked(later(last, at), now_millis)),
        at.earlier(ticked(later(last, at), now_millis)),
{
    next_is_strictly_monotonic(later(last, at), now_millis);
}

/// A tick that no newer time moves on is the next step: a thousand steps make a millisecond.
pub proof fn a_tick_is_the_next_step(last: Hlc, now_millis: i64)
    requires
        can_tick(last, now_millis),
        now_millis <= last.millis,
        last.logical < 1000,
    ensures
        ticked(last, now_millis).millis * 1000 + ticked(last, now_millis).logical == last.millis * 1000 + last.logical + 1,
        ticked(last, now_millis).logical < 1000,
{
}

/// A clock can tick unless that would take it past the last time there is.
pub proof fn when_a_clock_can_tick(clock: HlcClock, now_millis: i64, r: bool)
    requires
        call_ensures(HlcClock::has_next, (&clock, now_millis), r),
    ensures
        now_millis > clock.last_millis ==> r,
        clock.logical < 999 ==> r,
        clock.logical == 999 && clock.last_millis < i64::MAX ==> r,
        clock.logical == 999 && clock.last_millis == i64::MAX ==> !r,
{
}

} // verus!
