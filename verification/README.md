# scanstate

Checkpoint a scan so it can be resumed: track which targets are done,
frame a write-ahead journal for crash recovery, and count progress.

- `src/` is the verified library: the set of completed targets
  (`checkpoint.rs`, `target_set.rs`, `order.rs`), the journal's line
  framing and replay (`journal.rs`), progress counters (`progress.rs`),
  and the declarations of the outside types the library carries
  (`external.rs`).
- `app/` holds what touches files, serde and the clock: saving and
  loading checkpoints as JSON, appending to and replaying journal files,
  TOML settings, and the floating-point rate and time estimate.
