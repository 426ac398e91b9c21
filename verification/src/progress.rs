//! Counters of a running scan.

use crate::external::system_now;
use std::time::SystemTime;
use vstd::prelude::*;

verus! {

/// Live scan progress metrics.
#[derive(Debug, Clone)]
pub struct ScanProgress {
    /// Total planned targets.
    pub total: usize,
    /// Successfully completed targets.
    pub completed: usize,
    /// Skipped targets.
    pub skipped: usize,
    /// Total findings discovered so far.
    pub findings: usize,
    /// Time when the scan started.
    pub start_time: SystemTime,
}

impl ScanProgress {
    /// Number of targets handled so far, completed or skipped.
    pub open spec fn spec_processed(&self) -> int {
        self.completed + self.skipped
    }

    /// Targets still to go: none once as many were handled as planned.
    pub open spec fn spec_remaining(&self) -> int {
        if self.total <= self.spec_processed() {
            0
        } else {
            self.total - self.spec_processed()
        }
    }

    /// Create progress tracking for a scan of `total` targets, starting now:
    /// the start time is the clock's reading at the call, which depends on
    /// the machine and so is left unstated here.
    pub fn new(total: usize) -> (p: Self)
        ensures
            p.total == total,
            p.completed == 0,
            p.skipped == 0,
            p.findings == 0,
    {
        Self::starting_at(total, system_now())
    }

    /// Create progress tracking for a scan of `total` targets that started
    /// at `start_time`.
    pub fn starting_at(total: usize, start_time: SystemTime) -> (p: Self)
        ensures
            p.total == total,
            p.completed == 0,
            p.skipped == 0,
            p.findings == 0,
            p.start_time == start_time,
    {
        ScanProgress { total, completed: 0, skipped: 0, findings: 0, start_time }
    }

    /// Record one completed target.
    pub fn record_completed(&mut self)
        requires
            old(self).completed < usize::MAX,
        ensures
            final(self).completed == old(self).completed + 1,
            final(self).total == old(self).total,
            final(self).skipped == old(self).skipped,
            final(self).findings == old(self).findings,
            final(self).start_time == old(self).start_time,
    {
        self.completed = self.completed + 1;
    }

    /// Record one skipped target.
    pub fn record_skipped(&mut self)
        requires
            old(self).skipped < usize::MAX,
        ensures
            final(self).skipped == old(self).skipped + 1,
            final(self).total == old(self).total,
            final(self).completed == old(self).completed,
            final(self).findings == old(self).findings,
            final(self).start_time == old(self).start_time,
    {
        self.skipped = self.skipped + 1;
    }

    /// Add findings discovered during the scan.
    pub fn record_findings(&mut self, findings: usize)
        requires
            old(self).findings + findings <= usize::MAX,
        ensures
            final(self).findings == old(self).findings + findings,
            final(self).total == old(self).total,
            final(self).completed == old(self).completed,
            final(self).skipped == old(self).skipped,
            final(self).start_time == old(self).start_time,
    {
        self.findings = self.findings + findings;
    }

    /// Targets handled so far, completed or skipped: the count that the
    /// rate and the estimate of the remaining time are based on.
    pub fn processed(&self) -> (n: usize)
        requires
            self.completed + self.skipped <= usize::MAX,
        ensures
            n == self.spec_processed(),
            n == self.completed + self.skipped,
    {
        self.completed + self.skipped
    }

    /// Targets still to go; none once as many were handled as planned,
    /// which is when no time remains.
    pub fn remaining(&self) -> (n: usize)
        requires
            self.completed + self.skipped <= usize::MAX,
        ensures
            n == self.spec_remaining(),
            self.total <= self.completed + self.skipped ==> n == 0,
            self.total > self.completed + self.skipped ==> n + self.completed + self.skipped == self.total,
    {
        let processed = self.processed();
        if self.total <= processed {
            0
        } else {
            self.total - processed
        }
    }
}

/// What was handled and what remains make up the plan, or all that was
/// handled once more was handled than planned.
pub proof fn processed_and_remaining_cover_the_plan(p: ScanProgress)
    ensures
        p.spec_remaining() == 0 <==> p.total <= p.spec_processed(),
        p.spec_processed() + p.spec_remaining() == if p.total <= p.spec_processed() {
            p.spec_processed()
        } else {
            p.total as int
        },
{
}

/// Every target handled counts once, whether completed or skipped: the
/// processed count is the sum of the two counters.
pub proof fn processed_counts_completed_and_skipped(p: ScanProgress)
    ensures
        p.spec_processed() == p.completed + p.skipped,
        p.spec_remaining() == if p.total <= p.completed + p.skipped {
            0
        } else {
            p.total - p.completed - p.skipped
        },
{
}

/// Recording one more completed or skipped target raises the processed
/// count by exactly one and lowers what remains by at most one.
pub proof fn recording_a_target_processes_one_more(before: ScanProgress, after: ScanProgress)
    requires
        after.total == before.total,
        (after.completed == before.completed + 1 && after.skipped == before.skipped)
            || (after.skipped == before.skipped + 1 && after.completed == before.completed),
    ensures
        after.spec_processed() == before.spec_processed() + 1,
        before.spec_remaining() - 1 <= after.spec_remaining() <= before.spec_remaining(),
        before.spec_remaining() > 0 ==> after.spec_remaining() == before.spec_remaining() - 1,
{
}

impl Default for ScanProgress {
    fn default() -> (p: Self)
        ensures
            p.total == 0,
            p.completed == 0,
            p.skipped == 0,
            p.findings == 0,
    {
        Self::new(0)
    }
}

} // verus!
