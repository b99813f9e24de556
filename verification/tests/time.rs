//! World time.

use voxterra::time::{LUNATION_DAYS, TICKS_PER_DAY};
use voxterra::WorldTime;

#[test]
fn day_counter_advances() {
    assert_eq!(WorldTime::zero().day(), 0);
    assert_eq!(WorldTime::from_ticks(TICKS_PER_DAY - 1).day(), 0);
    assert_eq!(WorldTime::from_ticks(TICKS_PER_DAY).day(), 1);
    assert_eq!(WorldTime::from_ticks(3 * TICKS_PER_DAY + 5).day(), 3);
}

#[test]
fn one_tick_is_one_game_second() {
    // The defining property of the tick unit.
    assert_eq!(TICKS_PER_DAY, 86_400);
    // A game hour is 3600 ticks; 6:00 (sunrise) is a quarter day.
    assert_eq!(6 * 3600, TICKS_PER_DAY / 4);
}

#[test]
fn advance_is_saturating() {
    let t = WorldTime::from_ticks(u64::MAX - 2);
    assert_eq!(t.advance(10).ticks(), u64::MAX);
}

/// Exactly one day in is midnight of the next day.
#[test]
fn the_tick_of_the_day_wraps() {
    assert_eq!(WorldTime::zero().tick_of_day(), 0);
    assert_eq!(WorldTime::from_ticks(TICKS_PER_DAY / 4).tick_of_day(), 21_600);
    assert_eq!(WorldTime::from_ticks(TICKS_PER_DAY).tick_of_day(), 0);
    assert_eq!(WorldTime::from_ticks(5 * TICKS_PER_DAY + 7).tick_of_day(), 7);
}

#[test]
fn the_moon_goes_round_once_per_lunation() {
    let month = TICKS_PER_DAY * LUNATION_DAYS;
    assert_eq!(WorldTime::from_ticks(month - 1).tick_of_lunation(), month - 1);
    assert_eq!(WorldTime::from_ticks(month + 3).tick_of_lunation(), 3);
}

#[test]
fn the_clock_is_set_within_its_day() {
    let t = WorldTime::from_ticks(2 * TICKS_PER_DAY + 100);
    let noon = t.at_tick_of_day(TICKS_PER_DAY / 2);
    assert_eq!(noon.ticks(), 2 * TICKS_PER_DAY + 43_200);
    assert_eq!(noon.day() * TICKS_PER_DAY + noon.tick_of_day(), noon.ticks());
}
