//! Checkpoint, journal and progress primitives for resumable scans.
//!
//! A [`ScanCheckpoint`] records which targets of a scan are done, a
//! [`WriteAheadJournal`] frames the records of an append-only log, and a
//! [`ScanProgress`] counts what has been processed so far.

pub mod checkpoint;
pub mod external;
pub mod journal;
pub mod order;
pub mod progress;
mod sealed;
pub mod target_set;

pub use checkpoint::{CheckpointSettings, IntoId, ScanCheckpoint, ScanStateError};
pub use journal::{Entry, WriteAheadJournal};
pub use progress::ScanProgress;

use vstd::prelude::*;

verus! {

/// Scan state that can be checkpointed: implement it on a scanner's state
/// to pause and resume it.
pub trait Checkpointable {
    /// Mark a target as complete.
    fn mark_done(&mut self, target_id: &str);

    /// Check if a target is already done.
    fn is_done(&self, target_id: &str) -> bool;

    /// How many targets are done.
    fn done_count(&self) -> usize;
}

impl Checkpointable for ScanCheckpoint {
    fn mark_done(&mut self, target_id: &str)
        ensures
            final(self).targets() == old(self).targets().insert(target_id@),
            final(self).id() == old(self).id(),
    {
        self.mark_complete(target_id);
    }

    fn is_done(&self, target_id: &str) -> (r: bool)
        ensures
            r == self.targets().contains(target_id@),
    {
        self.is_complete(target_id)
    }

    fn done_count(&self) -> (n: usize)
        ensures
            n == self.targets().len(),
    {
        self.completed_count()
    }
}

/// Resume a scan from what loading its checkpoint gave, or start it afresh.
///
/// `saved` is `None` when the checkpoint file does not exist; then a new,
/// empty checkpoint for `scan_id` is returned. Otherwise the outcome of
/// loading the file is returned as it is, error included.
pub fn load_or_new(saved: Option<Result<ScanCheckpoint, ScanStateError>>, scan_id: &str) -> (r:
    Result<ScanCheckpoint, ScanStateError>)
    ensures
        saved is None ==> (r matches Ok(cp) && cp.id() == scan_id@ && cp.targets() == Set::<
            Seq<char>,
        >::empty()),
        saved matches Some(loaded) ==> r == loaded,
{
    match saved {
        Some(loaded) => loaded,
        None => Ok(ScanCheckpoint::new(scan_id)),
    }
}

} // verus!
