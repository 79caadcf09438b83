//! The driver loop's decisions: when the tuner and the balancer run, for how
//! long the loop sleeps, when it ends and how its end is reported. All times
//! are nanoseconds of one monotonic clock.
use vstd::prelude::*;

verus! {

/// The sum of two times, held at the largest time where it would pass it.
pub open spec fn time_after(at: u64, span: u64) -> u64 {
    if at + span <= u64::MAX {
        (at + span) as u64
    } else {
        u64::MAX
    }
}

/// The deadline that follows a deadline that has fired at `now`: one interval
/// later, or, where that is already past, one interval from now. What was
/// missed is not made up for.
pub open spec fn next_deadline(deadline: u64, interval: u64, now: u64) -> u64 {
    let next = time_after(deadline, interval);
    if next < now {
        time_after(now, interval)
    } else {
        next
    }
}

fn add_time(at: u64, span: u64) -> (r: u64)
    ensures
        r == time_after(at, span),
{
    if span <= u64::MAX - at {
        at + span
    } else {
        u64::MAX
    }
}

/// What is due at one turn of the loop.
#[derive(Clone, Copy, Debug, PartialEq, Eq, Structural)]
pub struct Tick {
    pub run_tuner: bool,
    pub run_balancer: bool,
}

/// The two deadlines of the loop.
#[derive(Clone, Copy, Debug, PartialEq, Eq, Structural)]
pub struct Driver {
    pub tune_interval: u64,
    pub sched_interval: u64,
    pub next_tune_at: u64,
    pub next_sched_at: u64,
}

impl Driver {
    /// The deadlines of a loop that starts at `now`: each one interval away.
    pub fn new(now: u64, sched_interval: u64, tune_interval: u64) -> (d: Driver)
        ensures
            d == (Driver {
                tune_interval,
                sched_interval,
                next_tune_at: time_after(now, tune_interval),
                next_sched_at: time_after(now, sched_interval),
            }),
    {
        Driver {
            tune_interval,
            sched_interval,
            next_tune_at: add_time(now, tune_interval),
            next_sched_at: add_time(now, sched_interval),
        }
    }

    /// Whether the tuner is due at `now`.
    pub open spec fn tune_due(self, now: u64) -> bool {
        now >= self.next_tune_at
    }

    /// Whether the balancer is due at `now`.
    pub open spec fn sched_due(self, now: u64) -> bool {
        now >= self.next_sched_at
    }

    /// One turn of the loop at `now`: says what is due, the tuner to run
    /// first, and moves the deadline of what is due on.
    pub fn tick(&mut self, now: u64) -> (t: Tick)
        ensures
            t.run_tuner == old(self).tune_due(now),
            t.run_balancer == old(self).sched_due(now),
            *final(self) == (Driver {
                next_tune_at: if old(self).tune_due(now) {
                    next_deadline(old(self).next_tune_at, old(self).tune_interval, now)
                } else {
                    old(self).next_tune_at
                },
                next_sched_at: if old(self).sched_due(now) {
                    next_deadline(old(self).next_sched_at, old(self).sched_interval, now)
                } else {
                    old(self).next_sched_at
                },
                ..*old(self)
            }),
    {
        let run_tuner: bool = now >= self.next_tune_at;
        if run_tuner {
            let mut next: u64 = add_time(self.next_tune_at, self.tune_interval);
            if next < now {
                next = add_time(now, self.tune_interval);
            }
            self.next_tune_at = next;
        }
        let run_balancer: bool = now >= self.next_sched_at;
        if run_balancer {
            let mut next: u64 = add_time(self.next_sched_at, self.sched_interval);
            if next < now {
                next = add_time(now, self.sched_interval);
            }
            self.next_sched_at = next;
        }
        Tick { run_tuner, run_balancer }
    }

    /// The earlier of the two deadlines.
    pub open spec fn wake_at(self) -> u64 {
        if self.next_sched_at <= self.next_tune_at {
            self.next_sched_at
        } else {
            self.next_tune_at
        }
    }

    /// For how long to sleep at `now`: up to the earlier deadline, and not at
    /// all where that is past.
    pub fn sleep_for(&self, now: u64) -> (span: u64)
        ensures
            span == if self.wake_at() > now {
                self.wake_at() - now
            } else {
                0
            },
    {
        let wake: u64 = if self.next_sched_at <= self.next_tune_at {
            self.next_sched_at
        } else {
            self.next_tune_at
        };
        if wake > now {
            wake - now
        } else {
            0
        }
    }
}

/// A deadline that has fired moves on: the next one is not before it, and
/// not in the past.
pub proof fn lemma_next_deadline(deadline: u64, interval: u64, now: u64)
    requires
        now >= deadline,
    ensures
        next_deadline(deadline, interval, now) >= deadline,
        next_deadline(deadline, interval, now) >= now,
{
}

/// Whether the loop goes on: until shutdown is asked for or the kernel side
/// reports that it has left.
pub fn keeps_running(shutdown: bool, exit_type: i32) -> (r: bool)
    ensures
        r == (!shutdown && exit_type == 0),
{
    !shutdown && exit_type == 0
}

/// The exit type with which the kernel side reports an error.
pub const EXIT_ERROR: i32 = 2;

/// How the end of the loop is reported.
#[derive(Clone, Copy, Debug, PartialEq, Eq, Structural)]
pub enum ExitReport {
    /// The kernel side has not left: the loop ended on shutdown.
    Clean,
    /// The kernel side has left without an error.
    Left { exit_type: i32 },
    /// The kernel side has left with an error; its message says why.
    Failed { exit_type: i32 },
}

/// Says how the end of the loop is reported, given what the kernel side says
/// of its exit.
pub fn report_exit_type(exit_type: i32) -> (r: ExitReport)
    ensures
        r == if exit_type == 0 {
            ExitReport::Clean
        } else if exit_type == EXIT_ERROR {
            ExitReport::Failed { exit_type }
        } else {
            ExitReport::Left { exit_type }
        },
{
    if exit_type == 0 {
        ExitReport::Clean
    } else if exit_type == EXIT_ERROR {
        ExitReport::Failed { exit_type }
    } else {
        ExitReport::Left { exit_type }
    }
}

} // verus!
