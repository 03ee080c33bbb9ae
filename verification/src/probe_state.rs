//! Reusable per-worker scratch state for the probe phase.
//!
//! One instance exists per concurrent probe worker and is reused across all
//! probe batches that worker processes; it is never shared. All buffers are
//! bounded by the configured maximum batch size, fixed at creation.

use vstd::prelude::*;

use crate::join_type::JoinType;
use crate::row_ptr::MarkerKind;
use crate::row_ptr::RowPtr;

verus! {

/// Scratch state used by the probe phase of one hash-join worker.
pub struct ProbeState {
    /// Matched index pairs `(probe_row_index, output_slot)`, in emission
    /// order; parallel to `build_indexes`.
    pub probe_indexes: Vec<(usize, usize)>,
    /// The build row of each matched pair; position `i` here and in
    /// `probe_indexes` together describe one candidate match.
    pub build_indexes: Vec<RowPtr>,
    /// Which probe rows of the current batch have a non-null join key.
    /// Absent while no batch is in flight, and when the whole batch is valid.
    pub valids: Option<Vec<bool>>,
    /// A constant-true validity bitmap of maximum batch size: the zero-cost
    /// default when no null masking is needed.
    pub true_validity: Vec<bool>,
    /// Per-probe-row counter of matches that passed all filters; present only
    /// for Left / Single / Full joins, which must null-extend rows whose
    /// counter stays zero.
    pub row_state: Option<Vec<usize>>,
    /// Maps an output slot back to its probe row so the counter can be
    /// updated after residual evaluation; present only alongside `row_state`
    /// when a residual predicate is configured.
    pub row_state_indexes: Option<Vec<usize>>,
    /// Per-probe-row tri-state markers; present only for Semi / Anti / Mark
    /// joins.
    pub markers: Option<Vec<MarkerKind>>,
    /// The configured maximum output batch size; bounds every buffer above.
    pub max_block_size: usize,
}

impl ProbeState {
    /// The buffers are inside their fixed capacity and mutually consistent.
    pub open spec fn wf(self) -> bool {
        &&& self.max_block_size >= 1
        &&& self.probe_indexes@.len() == self.build_indexes@.len()
        &&& self.probe_indexes@.len() <= self.max_block_size
        &&& self.true_validity@.len() == self.max_block_size
        &&& forall|i: int|
            0 <= i < self.true_validity@.len() ==> #[trigger] self.true_validity@[i]
        &&& match self.row_state {
            Some(rs) => rs@.len() <= self.max_block_size,
            None => true,
        }
        &&& match self.markers {
            Some(ms) => ms@.len() <= self.max_block_size,
            None => true,
        }
        &&& self.row_state_indexes is Some ==> self.row_state is Some
    }

    /// The optional buffers agree with what the join type needs: counters for
    /// Left / Single / Full, markers for Semi / Anti / Mark.
    pub open spec fn compatible(self, jt: JoinType) -> bool {
        &&& (self.row_state is Some <==> jt.spec_needs_row_state())
        &&& (self.markers is Some ==> jt.spec_needs_markers())
    }

    /// Fresh scratch state for one worker of a join of type `join_type`.
    ///
    /// `with_conjunct` says whether a residual (conjunct) predicate is
    /// configured; only then is the slot-to-row map allocated.
    /// `max_block_size` is the configured maximum output batch size.
    pub fn create(join_type: JoinType, with_conjunct: bool, max_block_size: usize) -> (s: ProbeState)
        requires
            max_block_size >= 1,
        ensures
            s.wf(),
            s.compatible(join_type),
            s.max_block_size == max_block_size,
            s.probe_indexes@.len() == 0,
            s.build_indexes@.len() == 0,
            s.valids is None,
            s.markers is None,
            s.row_state is Some <==> join_type.spec_needs_row_state(),
            s.row_state_indexes is Some <==> (join_type.spec_needs_row_state() && with_conjunct),
    {
        let mut true_validity: Vec<bool> = Vec::with_capacity(max_block_size);
        let mut i: usize = 0;
        while i < max_block_size
            invariant
                i <= max_block_size,
                true_validity@.len() == i,
                forall|j: int| 0 <= j < i ==> #[trigger] true_validity@[j],
            decreases max_block_size - i,
        {
            true_validity.push(true);
            i += 1;
        }
        let (row_state, row_state_indexes): (Option<Vec<usize>>, Option<Vec<usize>>) =
            if join_type.needs_row_state() {
                if with_conjunct {
                    (Some(Vec::new()), Some(Vec::new()))
                } else {
                    (Some(Vec::new()), None)
                }
            } else {
                (None, None)
            };
        ProbeState {
            probe_indexes: Vec::with_capacity(max_block_size),
            build_indexes: Vec::with_capacity(max_block_size),
            valids: None,
            true_validity,
            row_state,
            row_state_indexes,
            markers: None,
            max_block_size,
        }
    }

    /// Resets the per-batch validity bitmap; called between probe batches.
    pub fn clear(&mut self)
        ensures
            final(self).valids is None,
            final(self).probe_indexes == old(self).probe_indexes,
            final(self).build_indexes == old(self).build_indexes,
            final(self).true_validity == old(self).true_validity,
            final(self).row_state == old(self).row_state,
            final(self).row_state_indexes == old(self).row_state_indexes,
            final(self).markers == old(self).markers,
            final(self).max_block_size == old(self).max_block_size,
            old(self).wf() ==> final(self).wf(),
    {
        self.valids = None;
    }
}

} // verus!
