//! Progress reporting arithmetic.

use vstd::prelude::*;

verus! {

/// How many times a phase whose size is known reports its progress.
pub const PROGRESS_REPORTS_PER_PHASE: u32 = 10;

/// How often the directory walk reports, in entries examined.
pub const PROGRESS_ENTRY_INTERVAL: u32 = 256;

/// How far apart the reports of a phase of `total` steps are.
pub open spec fn phase_step(total: u32) -> u32 {
    if total / PROGRESS_REPORTS_PER_PHASE >= 1 {
        total / PROGRESS_REPORTS_PER_PHASE
    } else {
        1
    }
}

/// When the report behind the one at `done` is due.
pub open spec fn next_report(done: u32, step: u32) -> u32 {
    if done + step <= u32::MAX {
        (done + step) as u32
    } else {
        u32::MAX
    }
}

/// Decides when a report is due.
pub struct Ticker {
    pub step: u32,
    pub next: u32,
}

impl Ticker {
    /// A ticker for a phase of `total` steps, due about every tenth of it.
    pub fn new(total: u32) -> (t: Ticker)
        ensures
            t.step == phase_step(total),
            t.next == t.step,
    {
        let tenth: u32 = total / PROGRESS_REPORTS_PER_PHASE;
        let step: u32 = if tenth >= 1 {
            tenth
        } else {
            1
        };
        Ticker { step, next: step }
    }

    /// A ticker that is due every `step` steps.
    pub fn every(step: u32) -> (t: Ticker)
        ensures
            t.step == step,
            t.next == step,
    {
        Ticker { step, next: step }
    }

    /// Whether a report is due once `done` steps are done. After one, the next is due a step later.
    pub fn tick(&mut self, done: u32) -> (due: bool)
        ensures
            due == (done >= old(self).next),
            final(self).step == old(self).step,
            final(self).next == if due {
                next_report(done, old(self).step)
            } else {
                old(self).next
            },
    {
        if done < self.next {
            return false;
        }
        self.next = done.saturating_add(self.step);
        true
    }
}

/// `done` out of `total` as a percentage, rounded to the nearest and never above 100.
pub open spec fn percent_of(done: u32, total: u32) -> int {
    if total == 0 {
        100
    } else {
        let rounded = (done * 100 + total as int / 2) / (total as int);
        if rounded <= 100 {
            rounded
        } else {
            100
        }
    }
}

/// `done` out of `total` as a percentage.
pub fn percent(done: u32, total: u32) -> (pct: u32)
    ensures
        pct == percent_of(done, total),
{
    if total == 0 {
        return 100;
    }
    let quotient: u64 = (done as u64 * 100 + total as u64 / 2) / total as u64;
    if quotient < 100 {
        quotient as u32
    } else {
        100
    }
}

} // verus!
