//! World time.
//!
//! [`WorldTime`] is the single source of truth for time of day: a bare tick
//! counter where **one tick is one game-second**. Day length and lunation are
//! independent constants, and nothing here reads a clock: pacing is the
//! caller's, who advances the counter.

use crate::arith::{lemma_div_floor, lemma_mod_add_multiple};
use vstd::prelude::*;

verus! {

/// Game-seconds in one full day.
pub const TICKS_PER_DAY: u64 = 24 * 3600;

/// Length of a full moon cycle, in game-days. Short on purpose, so that the
/// phase visibly changes within a session.
pub const LUNATION_DAYS: u64 = 8;

/// Ticks in a full moon cycle.
pub const TICKS_PER_LUNATION: u64 = LUNATION_DAYS * TICKS_PER_DAY;

/// Default real-world seconds per game day (24 real minutes).
pub const DEFAULT_DAY_LENGTH_SECS: u32 = 24 * 60;

/// A point in world time. One tick is one game-second.
#[derive(Debug, Clone, Copy, PartialEq, Eq, PartialOrd, Ord, Hash, Structural)]
pub struct WorldTime {
    ticks: u64,
}

impl View for WorldTime {
    type V = int;

    closed spec fn view(&self) -> int {
        self.ticks as int
    }
}

impl WorldTime {
    /// Midnight of day zero.
    pub fn zero() -> (r: WorldTime)
        ensures
            r@ == 0,
    {
        WorldTime { ticks: 0 }
    }

    #[inline]
    pub fn from_ticks(ticks: u64) -> (r: Self)
        ensures
            r@ == ticks,
    {
        WorldTime { ticks }
    }

    #[inline]
    pub fn ticks(self) -> (r: u64)
        ensures
            r == self@,
    {
        self.ticks
    }

    /// Advance time by `dt_ticks` game-seconds (saturating: a world never runs
    /// out of time).
    #[inline]
    pub fn advance(self, dt_ticks: u64) -> (r: Self)
        ensures
            r@ == (if self@ + dt_ticks > u64::MAX {
                u64::MAX as int
            } else {
                self@ + dt_ticks
            }),
            r@ - self@ == dt_ticks || (r@ == u64::MAX && r@ - self@ < dt_ticks),
            r@ >= self@,
    {
        WorldTime { ticks: self.ticks.saturating_add(dt_ticks) }
    }

    /// Which game-day this is (0-based).
    #[inline]
    pub fn day(self) -> (r: u64)
        ensures
            r == self@ / TICKS_PER_DAY as int,
            r * 86400 <= self@ < r * 86400 + 86400,
    {
        self.ticks / TICKS_PER_DAY
    }

    /// Game-seconds since midnight, below [`TICKS_PER_DAY`].
    #[inline]
    pub fn tick_of_day(self) -> (r: u64)
        ensures
            r == self@ % TICKS_PER_DAY as int,
            r < TICKS_PER_DAY,
            r < 86400,
            (self@ / 86400) * 86400 + r == self@,
    {
        self.ticks % TICKS_PER_DAY
    }

    /// Game-seconds since the last new moon, below [`TICKS_PER_LUNATION`].
    #[inline]
    pub fn tick_of_lunation(self) -> (r: u64)
        ensures
            r == self@ % TICKS_PER_LUNATION as int,
            r < TICKS_PER_LUNATION,
            r < 691200,
            (self@ / 691200) * 691200 + r == self@,
    {
        self.ticks % TICKS_PER_LUNATION
    }

    /// This day at another time of day: scrubbing keeps the day counter.
    pub fn at_tick_of_day(self, tick: u64) -> (r: Self)
        requires
            tick < TICKS_PER_DAY,
        ensures
            r@ == (if (self@ / TICKS_PER_DAY as int) * TICKS_PER_DAY + tick > u64::MAX {
                u64::MAX as int
            } else {
                (self@ / TICKS_PER_DAY as int) * TICKS_PER_DAY + tick
            }),
            r@ < u64::MAX ==> r@ / 86400 == self@ / 86400 && r@ % 86400 == tick,
    {
        let day: u64 = self.ticks / TICKS_PER_DAY;
        proof {
            crate::arith::lemma_div_floor(self.ticks as int, TICKS_PER_DAY as int);
        }
        let start: u64 = day * TICKS_PER_DAY;
        WorldTime { ticks: start.saturating_add(tick) }
    }
}

/// The day and the second of the day make up the time, and advancing by whole
/// days keeps the time of day.
pub proof fn lemma_day_and_tick(t: int, days: int)
    ensures
        t == (t / TICKS_PER_DAY as int) * TICKS_PER_DAY + t % TICKS_PER_DAY as int,
        (t + days * TICKS_PER_DAY) % TICKS_PER_DAY as int == t % TICKS_PER_DAY as int,
        (t + days * TICKS_PER_DAY) / TICKS_PER_DAY as int == t / TICKS_PER_DAY as int + days,
{
    assert((t + days * 86400) % 86400 == t % 86400);
    assert((t + days * 86400) / 86400 == t / 86400 + days);
}

/// A day has 24 hours of 3600 seconds, a lunation eight days: the phase of the moon
/// comes round with every eighth day.
pub proof fn lemma_lunation(t: int, moons: int)
    ensures
        TICKS_PER_DAY == 24 * 3600,
        TICKS_PER_LUNATION == 8 * TICKS_PER_DAY,
        DEFAULT_DAY_LENGTH_SECS == 24 * 60,
        (t + moons * TICKS_PER_LUNATION) % TICKS_PER_LUNATION as int == t
            % TICKS_PER_LUNATION as int,
        (t % TICKS_PER_LUNATION as int) % TICKS_PER_DAY as int == t % TICKS_PER_DAY as int,
{
    let moon = TICKS_PER_LUNATION as int;
    let day = TICKS_PER_DAY as int;
    lemma_mod_add_multiple(t, moons, moon);
    lemma_div_floor(t, moon);
    let q = t / moon;
    assert(t % moon == t + (-8 * q) * day);
    lemma_mod_add_multiple(t, -8 * q, day);
}

} // verus!
