//! The learning time of the day.
//!
//! Counts the time spent learning: a round in progress, or the card of a sign
//! being studied. Nothing else: neither the menus nor the briefing, which can
//! be left open without learning anything.
//!
//! The day is told by the caller, counted in days since 1970; so is the
//! writing to disk, which this module only asks for.

use vstd::prelude::*;

verus! {

/// The version of the save format.
pub const FORMAT_VERSION: u32 = 1;

/// Time between two writings to disk. Saving every frame would wear the
/// disk for nothing; saving only on closing would lose the session if the
/// game is killed.
pub const SAVE_EVERY_MS: u64 = 20_000;

/// A minute.
pub const MINUTE_MS: u64 = 60_000;

/// The time learned today.
#[derive(Debug, Clone, Copy, PartialEq, Eq, Structural)]
pub struct Daily {
    pub version: u32,
    /// The day counted since 1970, to know when to start over.
    pub day: i64,
    /// Time learned that day.
    pub learned_ms: u64,
    /// Was the alert shown today?
    pub alerted: bool,
    /// Time gathered since the last writing; never saved.
    pub since_save_ms: u64,
}

/// A fresh count for `today`.
pub open spec fn fresh(today: i64) -> Daily {
    Daily { version: FORMAT_VERSION, day: today, learned_ms: 0, alerted: false, since_save_ms: 0 }
}

/// The count once the day is checked: a count from another day starts over.
pub open spec fn rolled(d: Daily, today: i64) -> Daily {
    if d.day != today {
        fresh(today)
    } else {
        d
    }
}

/// Whole minutes in a learning time.
pub open spec fn whole_minutes(ms: u64) -> int {
    ms as int / MINUTE_MS as int
}

/// The goal of the day is reached and its alert not yet seen. A goal of zero
/// minutes is no goal.
pub open spec fn goal_met(d: Daily, goal_minutes: u32) -> bool {
    goal_minutes > 0 && !d.alerted && whole_minutes(d.learned_ms) >= goal_minutes
}

/// The count after `dt` more milliseconds of learning on `today`, and
/// whether it is time to write it: a session that crosses midnight starts
/// from zero without leaving the game.
pub open spec fn added(d: Daily, dt: u64, today: i64) -> (Daily, bool) {
    let base = if d.day != today {
        Daily { since_save_ms: d.since_save_ms, ..fresh(today) }
    } else {
        d
    };
    let counted = Daily {
        learned_ms: (base.learned_ms + dt) as u64,
        since_save_ms: (base.since_save_ms + dt) as u64,
        ..base
    };
    if counted.since_save_ms >= SAVE_EVERY_MS {
        (Daily { since_save_ms: 0, ..counted }, true)
    } else {
        (counted, false)
    }
}

impl Daily {
    /// A fresh count for `today`.
    pub fn starting(today: i64) -> (d: Daily)
        ensures
            d == fresh(today),
    {
        Daily { version: FORMAT_VERSION, day: today, learned_ms: 0, alerted: false, since_save_ms: 0 }
    }

    /// A count read back from disk: kept when it has the current format and
    /// is of today, started over otherwise.
    pub fn from_saved(saved: Daily, today: i64) -> (d: Daily)
        ensures
            d == (if saved.version == FORMAT_VERSION {
                rolled(Daily { since_save_ms: 0, ..saved }, today)
            } else {
                fresh(today)
            }),
    {
        if saved.version == FORMAT_VERSION {
            Daily { since_save_ms: 0, ..saved }.rolled_over(today)
        } else {
            Daily::starting(today)
        }
    }

    /// Starts over when the count is from another day.
    pub fn rolled_over(self, today: i64) -> (d: Daily)
        ensures
            d == rolled(self, today),
    {
        if self.day != today {
            Daily::starting(today)
        } else {
            self
        }
    }

    /// Adds learning time. Gives `true` when the count should be written.
    ///
    /// The day is checked here rather than at start-up: a session that
    /// crosses midnight must start from zero without leaving the game.
    pub fn add(&mut self, dt_ms: u64, today: i64) -> (save: bool)
        requires
            old(self).learned_ms + dt_ms <= u64::MAX,
            old(self).since_save_ms + dt_ms <= u64::MAX,
        ensures
            (*final(self), save) == added(*old(self), dt_ms, today),
    {
        if self.day != today {
            let since_save = self.since_save_ms;
            *self = Daily { since_save_ms: since_save, ..Daily::starting(today) };
        }
        self.learned_ms = self.learned_ms + dt_ms;
        self.since_save_ms = self.since_save_ms + dt_ms;
        if self.since_save_ms >= SAVE_EVERY_MS {
            self.since_save_ms = 0;
            true
        } else {
            false
        }
    }

    /// Whole minutes learned today, at most `u32::MAX`.
    pub fn minutes(&self) -> (m: u32)
        ensures
            m == (if whole_minutes(self.learned_ms) <= u32::MAX {
                whole_minutes(self.learned_ms)
            } else {
                u32::MAX as int
            }),
    {
        let minutes = self.learned_ms / MINUTE_MS;
        if minutes <= u32::MAX as u64 {
            minutes as u32
        } else {
            u32::MAX
        }
    }

    /// Is the goal of the day reached, without its alert already seen?
    pub fn goal_reached(&self, goal_minutes: u32) -> (reached: bool)
        ensures
            reached == goal_met(*self, goal_minutes),
    {
        goal_minutes > 0 && !self.alerted && self.learned_ms / MINUTE_MS >= goal_minutes as u64
    }

    /// Notes that the alert was shown, so that it comes back neither
    /// tomorrow morning nor five minutes later. The caller writes the count.
    pub fn mark_alerted(&mut self)
        ensures
            *final(self) == (Daily { alerted: true, ..*old(self) }),
    {
        self.alerted = true;
    }
}

/// Once its alert is shown, the goal of the day is reached no more that day.
pub proof fn law_alert_shown_once(d: Daily, goal_minutes: u32)
    ensures
        !goal_met(Daily { alerted: true, ..d }, goal_minutes),
{
}

/// Learning time only grows within a day; a new day starts from what was
/// learned since, its alert not yet shown.
pub proof fn law_day_rolls_over(d: Daily, dt: u64, today: i64)
    requires
        d.learned_ms + dt <= u64::MAX,
        d.since_save_ms + dt <= u64::MAX,
    ensures
        added(d, dt, today).0.day == today,
        d.day == today ==> added(d, dt, today).0.learned_ms == d.learned_ms + dt,
        d.day == today ==> added(d, dt, today).0.alerted == d.alerted,
        d.day != today ==> added(d, dt, today).0.learned_ms == dt,
        d.day != today ==> !added(d, dt, today).0.alerted,
{
}

/// The goal is reached at the exact minute: not a minute before.
pub proof fn law_goal_at_the_minute(d: Daily, goal_minutes: u32)
    requires
        goal_minutes > 0,
        !d.alerted,
    ensures
        goal_met(d, goal_minutes) <==> d.learned_ms >= goal_minutes * MINUTE_MS,
{
    let m = d.learned_ms as int;
    let g = goal_minutes as int;
    assert(m / 60_000 >= g <==> m >= g * 60_000) by (nonlinear_arith)
        requires
            m >= 0,
            g > 0,
    ;
}

} // verus!
