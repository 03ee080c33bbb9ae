//! A verified hash-join execution core.
//!
//! The library implements the build/probe state machine of a hash join:
//! chunked, immutable build-side storage addressed through row pointers, a
//! read-only hash index from key hashes to candidate rows, per-worker probe
//! scratch state, the index-pair matching algorithm with join-type-specific
//! unmatched-row handling, output assembly by index gathering, and the final
//! reconciliation pass that emits leftover unmatched build rows.
//!
//! One operator instance runs in this order: `JoinHashTable::create`, then
//! `add_chunk` once per build batch, then `seal`. Each probe worker owns one
//! `ProbeState` and one `MarkerBoard` and calls `probe_batch` once per probe
//! batch; index-level output batches are materialized with `assemble`. After
//! every worker has drained, the boards are merged and `finalize` emits the
//! unmatched build rows that Right / Full joins owe. Join keys arrive
//! evaluated, one optional 64-bit key per row. With a residual (conjunct)
//! predicate configured, `probe_batch` returns only the candidate pairs and
//! defers the rest to the residual step: the caller's evaluation context
//! produces one verdict per pair, `apply_residual` filters the pairs and
//! accumulates the passing-match counters, `check_single` judges a Single
//! join on them, and `emit_unmatched_probe_rows` null-extends every probe
//! row whose matches all failed. What each entry point returns is stated in
//! its contract over the emission model of `probe`, and the join-semantics
//! laws proved in `laws` rest on those models.

pub mod assemble;
pub mod batching;
pub mod chunk;
pub mod join_type;
pub mod laws;
pub mod markers;
pub mod probe;
pub mod probe_state;
pub mod reconcile;
pub mod residual;
pub mod row_ptr;
pub mod table;
