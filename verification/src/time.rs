//! Game clocks: time controls, timestamps and the time left to each player.
use vstd::prelude::*;

use crate::TakPlayer;

verus! {

/// A time control: `time` seconds for each player, plus `increment`
/// seconds after each move.
#[derive(Clone, Copy, Debug, PartialEq, Eq, Structural)]
pub struct TakTimeMode {
    pub time: usize,
    pub increment: usize,
}

impl TakTimeMode {
    /// A time control of `time` seconds and `increment` seconds per move.
    pub fn new(time: usize, increment: usize) -> (r: Self)
        ensures
            r.time == time,
            r.increment == increment,
    {
        TakTimeMode { time, increment }
    }
}

/// A moment, in milliseconds since the Unix epoch.
#[derive(Clone, Copy, Debug, PartialEq, Eq, Structural)]
pub struct TakTimestamp {
    pub millis: u64,
}

/// The system clock's type, carried through without looking inside.
#[verifier::external_type_specification]
#[verifier::external_body]
pub struct ExSystemTime(std::time::SystemTime);

/// The error of a clock reading earlier than another, carried through
/// without looking inside.
#[verifier::external_type_specification]
#[verifier::external_body]
pub struct ExSystemTimeError(std::time::SystemTimeError);

/// `SystemTime::now`: the system clock's reading. Nothing is promised of
/// it: it is the time of the machine.
#[verifier::external_body]
fn system_now() -> (r: std::time::SystemTime) {
    std::time::SystemTime::now()
}

/// `SystemTime::duration_since` with `UNIX_EPOCH`: the time since the epoch,
/// or an error when the reading lies before it. Nothing is promised of
/// which, nor of the duration.
#[verifier::external_body]
fn since_epoch(t: &std::time::SystemTime) -> (r: Result<std::time::Duration, std::time::SystemTimeError>) {
    t.duration_since(std::time::UNIX_EPOCH)
}

/// `Duration::as_millis`: the whole milliseconds of a duration. The
/// duration is opaque here, so nothing is stated of the number.
#[verifier::external_body]
fn duration_millis(d: &std::time::Duration) -> (r: u128) {
    d.as_millis()
}

/// `a - b`, or 0 when `b` is larger.
pub open spec fn sat_sub(a: u64, b: u64) -> u64 {
    if a >= b {
        (a - b) as u64
    } else {
        0
    }
}

impl TakTimestamp {
    /// The current time by the system clock, in milliseconds since the Unix
    /// epoch cut to 64 bits; 0 when the clock is set before the epoch.
    pub fn now() -> (r: Self) {
        let t = system_now();
        let millis: u64 = match since_epoch(&t) {
            Ok(d) => {
                let m = duration_millis(&d);
                #[verifier::truncate]
                (m as u64)
            },
            Err(_) => 0,
        };
        TakTimestamp { millis }
    }

    /// The milliseconds from `earlier` to this moment, 0 if `earlier` is later.
    pub fn elapsed_since(&self, earlier: TakTimestamp) -> (r: u64)
        ensures
            r == sat_sub(self.millis, earlier.millis),
    {
        self.millis.saturating_sub(earlier.millis)
    }
}

/// A game clock: the milliseconds left to each player (White first), the
/// increment, and when it was last updated.
#[derive(Clone, Copy, Debug, PartialEq, Eq)]
pub struct TakClock {
    pub time_remaining_millis: [u64; 2],
    pub increment_millis: u64,
    pub last_update_timestamp: Option<TakTimestamp>,
}

/// The milliseconds since the clock's last update at `now` (0 before the first update).
pub open spec fn elapsed_at(c: TakClock, now: TakTimestamp) -> u64 {
    match c.last_update_timestamp {
        Some(t) => sat_sub(now.millis, t.millis),
        None => 0,
    }
}

/// The time left to `player` at `now`: what was left at the last update,
/// less the time since.
pub open spec fn remaining_at(c: TakClock, player: TakPlayer, now: TakTimestamp) -> u64 {
    sat_sub(c.time_remaining_millis@[TakPlayer::idx(player)], elapsed_at(c, now))
}

impl TakClock {
    /// A clock for the time control: both players start with its time, in milliseconds.
    pub fn new(mode: &TakTimeMode) -> (r: Self)
        requires
            mode.time * 1000 <= u64::MAX,
            mode.increment * 1000 <= u64::MAX,
        ensures
            r.time_remaining_millis@ == seq![(mode.time * 1000) as u64, (mode.time * 1000) as u64],
            r.increment_millis == mode.increment * 1000,
            r.last_update_timestamp is None,
    {
        let time_remaining = mode.time as u64 * 1000;
        TakClock {
            time_remaining_millis: [time_remaining, time_remaining],
            increment_millis: mode.increment as u64 * 1000,
            last_update_timestamp: None,
        }
    }

    /// Ends `player`'s turn at `time`: takes the time since the last update
    /// from `player`, adds the increment if any time is left, and records `time`.
    pub fn update(&mut self, time: TakTimestamp, player: TakPlayer)
        requires
            sat_sub(
                old(self).time_remaining_millis@[TakPlayer::idx(player)],
                elapsed_at(*old(self), time),
            ) + old(self).increment_millis <= u64::MAX,
        ensures
            final(self).last_update_timestamp == Some(time),
            final(self).increment_millis == old(self).increment_millis,
            ({
                let left = remaining_at(*old(self), player, time);
                final(self).time_remaining_millis@ == old(self).time_remaining_millis@.update(
                    TakPlayer::idx(player),
                    if left > 0 {
                        (left + old(self).increment_millis) as u64
                    } else {
                        0u64
                    },
                )
            }),
    {
        let elapsed = match self.last_update_timestamp {
            Some(t) => time.elapsed_since(t),
            None => 0,
        };
        self.last_update_timestamp = Some(time);
        let i = player.index();
        let mut time_left = self.time_remaining_millis[i].saturating_sub(elapsed);
        if time_left > 0 {
            time_left = time_left + self.increment_millis;
        }
        self.time_remaining_millis[i] = time_left;
        assert(self.time_remaining_millis@ =~= old(self).time_remaining_millis@.update(
            TakPlayer::idx(player),
            time_left,
        ));
    }

    /// The time left to `player` at `now`.
    pub fn get_time_remaining_at(&self, player: TakPlayer, now: TakTimestamp) -> (r: u64)
        ensures
            r == remaining_at(*self, player, now),
    {
        let time_left = self.time_remaining_millis[player.index()];
        let elapsed = match self.last_update_timestamp {
            Some(t) => now.elapsed_since(t),
            None => 0,
        };
        time_left.saturating_sub(elapsed)
    }

    /// The time left to `player`: as of the last update, or, with
    /// `apply_elapsed`, as of now by the system clock.
    pub fn get_time_remaining(&self, player: TakPlayer, apply_elapsed: bool) -> (r: u64)
        ensures
            !apply_elapsed ==> r == self.time_remaining_millis@[TakPlayer::idx(player)],
            apply_elapsed ==> exists|now: TakTimestamp| r == remaining_at(*self, player, now),
    {
        let time_left = self.time_remaining_millis[player.index()];
        if !apply_elapsed {
            return time_left;
        }
        let now = TakTimestamp::now();
        self.get_time_remaining_at(player, now)
    }

    /// Sets the time left to `player`.
    pub fn set_time_remaining(&mut self, player: TakPlayer, time_remaining: u64)
        ensures
            final(self).time_remaining_millis@ == old(self).time_remaining_millis@.update(
                TakPlayer::idx(player),
                time_remaining,
            ),
            final(self).increment_millis == old(self).increment_millis,
            final(self).last_update_timestamp == old(self).last_update_timestamp,
    {
        self.time_remaining_millis[player.index()] = time_remaining;
        assert(self.time_remaining_millis@ =~= old(self).time_remaining_millis@.update(
            TakPlayer::idx(player),
            time_remaining,
        ));
    }
}

} // verus!
