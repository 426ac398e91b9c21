//! The set of completed targets of a scan, and the errors of the crate.

use crate::order::{
    lemma_sorted_listing_exists, lemma_str_lt_irreflexive, lemma_str_lt_transitive, sorted_listing,
    str_lt, strictly_sorted,
};
use crate::target_set::{views, TargetSet};
use std::path::PathBuf;
use vstd::prelude::*;
use vstd::std_specs::cmp::{PartialEqSpec, PartialEqSpecImpl};

verus! {

/// Errors returned by scan state helpers.
#[derive(Debug)]
pub enum ScanStateError {
    /// A filesystem operation failed.
    Io {
        /// The path where the IO error occurred.
        path: PathBuf,
        /// The underlying IO error.
        source: std::io::Error,
    },
    /// Checkpoints of two different scans cannot be merged: the ids of
    /// the receiving and of the merged checkpoint, in that order.
    MergeConflict(String, String),
    /// JSON serialization or parsing failed.
    Serde(serde_json::Error),
    /// TOML parsing failed.
    TomlParse(toml::de::Error),
    /// TOML serialization failed.
    TomlSerialize(toml::ser::Error),
}

/// Configuration settings for checkpoint behavior.
#[derive(Debug, Clone, PartialEq, Eq)]
pub struct CheckpointSettings {
    /// Logical scan identifier.
    pub scan_id: String,
    /// Filesystem path for checkpoint persistence.
    pub checkpoint_path: String,
    /// Optional override path for write-ahead journal.
    pub journal_path: Option<String>,
    /// Optional total target count used by progress calculations.
    pub total_targets: usize,
    /// Whether to fsync checkpoint files on every save.
    pub sync_checkpoint: bool,
    /// Periodic flush cadence in seconds, if needed by caller.
    pub flush_interval_secs: u64,
}

/// A value that becomes an owned identifier string: a scan id or a target
/// id. It is implemented for `&str`, `String` and `&String`, and sealed.
#[allow(private_bounds)]
pub trait IntoId: crate::sealed::Sealed {
    /// The characters of the identifier.
    spec fn id_view(&self) -> Seq<char>;

    /// The identifier as an owned string.
    fn into_id(self) -> (s: String)
        ensures
            s@ == self.id_view(),
    ;
}

impl<'a> IntoId for &'a str {
    open spec fn id_view(&self) -> Seq<char> {
        (**self)@
    }

    fn into_id(self) -> (s: String)
        ensures
            s@ == self@,
    {
        self.to_owned()
    }
}

impl IntoId for String {
    open spec fn id_view(&self) -> Seq<char> {
        self@
    }

    fn into_id(self) -> (s: String)
        ensures
            s@ == self@,
    {
        self
    }
}

impl<'a> IntoId for &'a String {
    open spec fn id_view(&self) -> Seq<char> {
        (**self)@
    }

    fn into_id(self) -> (s: String)
        ensures
            s@ == (*self)@,
    {
        self.clone()
    }
}

/// Turning a value into an identifier keeps its characters exactly, for
/// each kind of value that becomes one: nothing is trimmed, cut or added.
pub proof fn identifiers_keep_their_characters(a: &str, b: String, c: &String)
    ensures
        a.id_view() == a@,
        b.id_view() == b@,
        c.id_view() == (*c)@,
{
}

/// Marking a borrowed or owned string completes exactly that string, as
/// written: the set of targets gains that string and nothing else.
pub proof fn marking_completes_the_string_as_written(
    before: ScanCheckpoint,
    after: ScanCheckpoint,
    t: String,
)
    requires
        after.targets() == before.targets().insert(t.id_view()),
    ensures
        after.targets().contains(t@),
        after.targets() == before.targets().insert(t@),
        after.targets() == before.targets().insert((&t).id_view()),
{
}

/// The record of a scan: its id and the targets it has completed, each
/// counted once.
#[derive(Debug)]
pub struct ScanCheckpoint {
    /// Stable identifier for the scan run.
    pub scan_id: String,
    completed_targets: TargetSet,
}

impl ScanCheckpoint {
    /// The scan's identifier.
    pub closed spec fn id(&self) -> Seq<char> {
        self.scan_id@
    }

    /// The completed targets.
    pub closed spec fn targets(&self) -> Set<Seq<char>> {
        self.completed_targets@
    }

    /// Create an empty checkpoint for a scan.
    pub fn new<S: IntoId>(scan_id: S) -> (cp: Self)
        ensures
            cp.id() == scan_id.id_view(),
            cp.targets() == Set::<Seq<char>>::empty(),
    {
        ScanCheckpoint { scan_id: scan_id.into_id(), completed_targets: TargetSet::new() }
    }

    /// Mark a target as fully processed.
    pub fn mark_complete<S: IntoId>(&mut self, target_id: S)
        ensures
            final(self).targets() == old(self).targets().insert(target_id.id_view()),
            final(self).id() == old(self).id(),
    {
        let t = target_id.into_id();
        self.completed_targets.insert(t);
    }

    /// Check whether a target is already complete.
    pub fn is_complete(&self, target_id: &str) -> (r: bool)
        ensures
            r == self.targets().contains(target_id@),
    {
        self.completed_targets.contains(target_id)
    }

    /// Number of unique completed targets.
    pub fn completed_count(&self) -> (n: usize)
        ensures
            self.targets().finite(),
            n == self.targets().len(),
    {
        self.completed_targets.len()
    }

    /// Merge another checkpoint of the same scan into this one.
    ///
    /// Checkpoints of different scans are not merged: the error names both
    /// ids and this checkpoint is left as it was.
    pub fn merge(&mut self, other: Self) -> (r: Result<(), ScanStateError>)
        ensures
            old(self).id() == other.id() ==> {
                &&& r is Ok
                &&& final(self).targets() == old(self).targets() + other.targets()
                &&& final(self).id() == old(self).id()
            },
            old(self).id() != other.id() ==> {
                &&& r matches Err(ScanStateError::MergeConflict(mine, theirs))
                &&& mine@ == old(self).id()
                &&& theirs@ == other.id()
                &&& final(self).targets() == old(self).targets()
                &&& final(self).id() == old(self).id()
            },
    {
        if !(self.scan_id == other.scan_id) {
            return Err(ScanStateError::MergeConflict(self.scan_id.clone(), other.scan_id));
        }
        self.completed_targets.insert_all(&other.completed_targets);
        Ok(())
    }

    /// The completed targets in strictly increasing byte order, as a saved
    /// checkpoint lists them.
    pub fn completed_targets_sorted(&self) -> (v: Vec<String>)
        ensures
            views(v@) == sorted_listing(self.targets()),
            strictly_sorted(views(v@)),
            views(v@).to_set() == self.targets(),
            v@.len() == self.targets().len(),
    {
        let v = self.completed_targets.sorted();
        proof {
            lemma_sorted_listing_exists(self.targets());
            saved_listing_is_canonical(views(v@), sorted_listing(self.targets()));
        }
        v
    }

    /// The scan id, as a saved checkpoint records it.
    pub fn scan_id_str(&self) -> (s: &String)
        ensures
            s@ == self.id(),
    {
        &self.scan_id
    }

    /// A checkpoint of the scan `scan_id` with the targets listed in
    /// `completed_targets` done, as a saved checkpoint is read back.
    pub fn from_parts(scan_id: String, completed_targets: &Vec<String>) -> (cp: Self)
        ensures
            cp.id() == scan_id@,
            cp.targets() == views(completed_targets@).to_set(),
    {
        ScanCheckpoint { scan_id, completed_targets: TargetSet::from_strings(completed_targets) }
    }
}

/// Marking a target makes it complete and changes no other target.
pub proof fn marked_target_is_complete(before: ScanCheckpoint, after: ScanCheckpoint, t: Seq<char>)
    requires
        after.targets() == before.targets().insert(t),
    ensures
        after.targets().contains(t),
        forall|u: Seq<char>| u != t ==> (after.targets().contains(u) <==> before.targets().contains(u)),
{
}

/// Marking a target a second time changes nothing.
pub proof fn marking_twice_is_marking_once(
    before: ScanCheckpoint,
    once: ScanCheckpoint,
    twice: ScanCheckpoint,
    t: Seq<char>,
)
    requires
        once.targets() == before.targets().insert(t),
        twice.targets() == once.targets().insert(t),
    ensures
        twice.targets() == once.targets(),
{
    assert(twice.targets() =~= once.targets());
}

/// The count of completed targets grows by one when a new target is
/// marked, and not at all when a completed one is marked again.
pub proof fn marking_counts_unique_targets(before: ScanCheckpoint, after: ScanCheckpoint, t: Seq<char>)
    requires
        before.targets().finite(),
        after.targets() == before.targets().insert(t),
    ensures
        after.targets().len() == before.targets().len() + if before.targets().contains(t) {
            0int
        } else {
            1int
        },
{
    if before.targets().contains(t) {
        assert(after.targets() =~= before.targets());
    }
}

/// Merging is symmetric in the targets: either checkpoint merged into the
/// other completes the same targets.
pub proof fn merge_is_symmetric_in_targets(
    a: ScanCheckpoint,
    b: ScanCheckpoint,
    a_then_b: ScanCheckpoint,
    b_then_a: ScanCheckpoint,
)
    requires
        a_then_b.targets() == a.targets() + b.targets(),
        b_then_a.targets() == b.targets() + a.targets(),
    ensures
        a_then_b.targets() == b_then_a.targets(),
{
    assert(a_then_b.targets() =~= b_then_a.targets());
}

/// Merging a checkpoint whose targets are all already complete, an empty
/// one among them, changes nothing.
pub proof fn merging_known_targets_changes_nothing(
    a: ScanCheckpoint,
    b: ScanCheckpoint,
    merged: ScanCheckpoint,
)
    requires
        b.targets().subset_of(a.targets()),
        merged.targets() == a.targets() + b.targets(),
    ensures
        merged.targets() == a.targets(),
{
    assert(merged.targets() =~= a.targets());
}

/// The targets a checkpoint lists when saved are the only strictly sorted
/// listing of its targets: saving does not depend on the order in which
/// targets were completed.
pub proof fn saved_listing_is_canonical(x: Seq<Seq<char>>, y: Seq<Seq<char>>)
    requires
        strictly_sorted(x),
        strictly_sorted(y),
        x.to_set() == y.to_set(),
    ensures
        x == y,
    decreases x.len(),
{
    if x.len() == 0 {
        if y.len() > 0 {
            assert(y.to_set().contains(y[0]));
        }
        assert(x =~= y);
    } else {
        assert(x.to_set().contains(x[0]));
        let k = choose|k: int| 0 <= k < y.len() && y[k] == x[0];
        assert(y.to_set().contains(y[0]));
        let m = choose|m: int| 0 <= m < x.len() && x[m] == y[0];
        if k > 0 {
            assert(str_lt(y[0], y[k]));
            if m > 0 {
                assert(str_lt(x[0], x[m]));
                lemma_str_lt_transitive(x[0], x[m], x[0]);
                lemma_str_lt_irreflexive(x[0]);
            } else {
                lemma_str_lt_irreflexive(x[0]);
            }
        }
        assert(x[0] == y[0]);
        let xs = x.drop_first();
        let ys = y.drop_first();
        assert(strictly_sorted(xs)) by {
            assert forall|i: int, j: int| 0 <= i < j < xs.len() implies str_lt(#[trigger] xs[i], #[trigger] xs[j]) by {
                assert(str_lt(x[i + 1], x[j + 1]));
            }
        }
        assert(strictly_sorted(ys)) by {
            assert forall|i: int, j: int| 0 <= i < j < ys.len() implies str_lt(#[trigger] ys[i], #[trigger] ys[j]) by {
                assert(str_lt(y[i + 1], y[j + 1]));
            }
        }
        assert(xs.to_set() =~= ys.to_set()) by {
            assert forall|v: Seq<char>| xs.to_set().contains(v) implies ys.to_set().contains(v) by {
                let i = choose|i: int| 0 <= i < xs.len() && xs[i] == v;
                assert(str_lt(x[0], x[i + 1]));
                assert(x.to_set().contains(v));
                let j = choose|j: int| 0 <= j < y.len() && y[j] == v;
                if j == 0 {
                    lemma_str_lt_irreflexive(x[0]);
                }
                assert(ys[j - 1] == v);
            }
            assert forall|v: Seq<char>| ys.to_set().contains(v) implies xs.to_set().contains(v) by {
                let i = choose|i: int| 0 <= i < ys.len() && ys[i] == v;
                assert(str_lt(y[0], y[i + 1]));
                assert(y.to_set().contains(v));
                let j = choose|j: int| 0 <= j < x.len() && x[j] == v;
                if j == 0 {
                    lemma_str_lt_irreflexive(y[0]);
                }
                assert(xs[j - 1] == v);
            }
        }
        saved_listing_is_canonical(xs, ys);
        assert(x =~= seq![x[0]] + xs);
        assert(y =~= seq![y[0]] + ys);
    }
}

/// A checkpoint rebuilt from what it saves, its scan id and its sorted
/// target listing, equals it: same scan, same completed targets.
pub proof fn saved_checkpoint_restores(cp: ScanCheckpoint, saved_id: Seq<char>, restored: ScanCheckpoint)
    requires
        cp.targets().finite(),
        saved_id == cp.id(),
        restored.id() == saved_id,
        restored.targets() == sorted_listing(cp.targets()).to_set(),
    ensures
        PartialEqSpec::eq_spec(&restored, &cp),
        restored.id() == cp.id(),
        restored.targets() == cp.targets(),
{
    lemma_sorted_listing_exists(cp.targets());
}

impl Clone for ScanCheckpoint {
    fn clone(&self) -> (c: Self)
        ensures
            c.id() == self.id(),
            c.targets() == self.targets(),
    {
        ScanCheckpoint {
            scan_id: self.scan_id.clone(),
            completed_targets: self.completed_targets.clone(),
        }
    }
}

impl PartialEq for ScanCheckpoint {
    fn eq(&self, other: &Self) -> (r: bool) {
        self.scan_id == other.scan_id && self.completed_targets.same_members(
            &other.completed_targets,
        )
    }
}

impl Eq for ScanCheckpoint {}

impl PartialEqSpecImpl for ScanCheckpoint {
    open spec fn obeys_eq_spec() -> bool {
        true
    }

    /// Two checkpoints are equal when they belong to the same scan and have
    /// completed the same targets, whatever the order of completion.
    open spec fn eq_spec(&self, other: &Self) -> bool {
        self.id() == other.id() && self.targets() == other.targets()
    }
}

} // verus!
