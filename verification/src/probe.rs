//! The probe algorithm: index-pair matching with join-type-specific
//! unmatched-row handling and capacity-bounded output batching.
//!
//! For each probe batch the algorithm runs two passes. The matching pass
//! looks up every probe row's hash bucket, re-verifies key equality on each
//! candidate, and emits one index pair per verified match, in probe-row
//! order and, for a fixed probe row, in build arrival order. The unmatched
//! pass then emits whatever the join type owes for rows without matches:
//! null-extended rows for Left / Single / Full, the surviving probe rows for
//! Semi / Anti, and one tri-state row per probe row for Mark. Whenever the
//! scratch buffers reach the maximum batch size, they are yielded as one
//! output batch and the scan resumes where it stopped.

use vstd::prelude::*;

use crate::batching::chunks_of;
use crate::batching::flatten_all;
use crate::batching::lemma_chunks_reconstruct;
use crate::batching::lemma_flatten_all_push;
use crate::join_type::JoinError;
use crate::join_type::JoinType;
use crate::markers::MarkerBoard;
use crate::probe_state::ProbeState;
use crate::row_ptr::MarkerKind;
use crate::row_ptr::RowPtr;
use crate::row_ptr::mk_ptr;
use crate::table::JoinHashTable;
use crate::table::all_ptrs;
use crate::table::key_eq;
use crate::table::kv_bounded;
use crate::table::lemma_kview_bounded;
use crate::table::lemma_matches_contains;
use crate::table::match_ptrs;

verus! {

/// One output row at index level: which probe row and which build row it
/// joins, either side absent where the join type null-extends, plus the
/// tri-state marker column of a mark join.
#[derive(Clone, Copy, Debug, PartialEq, Eq)]
pub struct IndexPair {
    /// The probe row of this output row; `None` for an unmatched build row
    /// emitted by the reconciliation pass.
    pub probe_row: Option<usize>,
    /// The build row of this output row; `None` where the build side is
    /// null-extended or the join type outputs no build columns.
    pub build_row: Option<RowPtr>,
    /// The tri-state match indicator of a mark join.
    pub marker: Option<MarkerKind>,
}

/// A verified match: probe row `p` joined with build row `b`.
pub open spec fn pair_of(p: int, b: RowPtr) -> IndexPair {
    IndexPair { probe_row: Some(p as usize), build_row: Some(b), marker: None }
}

/// Probe row `p` with no build row: a null-extended or probe-only output row.
pub open spec fn probe_only_of(p: int) -> IndexPair {
    IndexPair { probe_row: Some(p as usize), build_row: None, marker: None }
}

/// Probe row `p` with its tri-state mark.
pub open spec fn mark_row_of(p: int, m: MarkerKind) -> IndexPair {
    IndexPair { probe_row: Some(p as usize), build_row: None, marker: Some(m) }
}

/// The candidate build rows one probe row joins against: every build row for
/// a cross join, the key's match list for a non-null key, nothing for a null
/// key (a null key never looks up the index).
pub open spec fn row_match_list(jt: JoinType, kv: Seq<Seq<Option<u64>>>, pk: Option<u64>) -> Seq<RowPtr> {
    if jt == JoinType::Cross {
        all_ptrs(kv)
    } else {
        match pk {
            Some(k) => match_ptrs(kv, k),
            None => Seq::empty(),
        }
    }
}

/// Whether a probe key has at least one verified build match.
pub open spec fn row_matched(kv: Seq<Seq<Option<u64>>>, pk: Option<u64>) -> bool {
    match pk {
        Some(k) => match_ptrs(kv, k).len() > 0,
        None => false,
    }
}

/// The match list of row `p` turned into output pairs, in build order.
pub open spec fn pair_rows(p: int, ms: Seq<RowPtr>) -> Seq<IndexPair> {
    Seq::new(ms.len(), |i: int| pair_of(p, ms[i]))
}

/// What the matching pass emits for probe row `p`.
pub open spec fn row_phase_a(jt: JoinType, kv: Seq<Seq<Option<u64>>>, p: int, pk: Option<u64>) -> Seq<IndexPair> {
    if jt.spec_emits_pairs() {
        pair_rows(p, row_match_list(jt, kv, pk))
    } else {
        Seq::empty()
    }
}

/// The matching pass over the first `n` probe rows, in probe-row order.
pub open spec fn phase_a_upto(jt: JoinType, kv: Seq<Seq<Option<u64>>>, pkeys: Seq<Option<u64>>, n: int) -> Seq<IndexPair>
    decreases n,
{
    if n <= 0 {
        Seq::empty()
    } else {
        phase_a_upto(jt, kv, pkeys, n - 1) + row_phase_a(jt, kv, n - 1, pkeys[n - 1])
    }
}

/// Everything the matching pass emits for one probe batch.
pub open spec fn phase_a_rows(jt: JoinType, kv: Seq<Seq<Option<u64>>>, pkeys: Seq<Option<u64>>) -> Seq<IndexPair> {
    phase_a_upto(jt, kv, pkeys, pkeys.len() as int)
}

/// The tri-state mark of one probe row: `Matched` on a verified match,
/// unknown (`MatchedNull`) where a null key prevented a definitive negative
/// — the probe key itself null, or no match while the build side holds a
/// null key — and `Unmatched` on a definitive negative.
pub open spec fn mark_of(kv: Seq<Seq<Option<u64>>>, has_null_build: bool, pk: Option<u64>) -> MarkerKind {
    match pk {
        None => MarkerKind::MatchedNull,
        Some(k) => if match_ptrs(kv, k).len() > 0 {
            MarkerKind::Matched
        } else if has_null_build {
            MarkerKind::MatchedNull
        } else {
            MarkerKind::Unmatched
        },
    }
}

/// What the unmatched pass emits for probe row `p`: one null-extended row
/// for an unmatched row of Left / Single / Full, the row itself for a
/// matched Semi row or an unmatched Anti row, the marked row for Mark,
/// nothing otherwise.
pub open spec fn row_phase_b(jt: JoinType, kv: Seq<Seq<Option<u64>>>, has_null_build: bool, p: int, pk: Option<u64>) -> Seq<IndexPair> {
    match jt {
        JoinType::Left | JoinType::Single | JoinType::Full => {
            if row_match_list(jt, kv, pk).len() == 0 {
                seq![probe_only_of(p)]
            } else {
                Seq::empty()
            }
        },
        JoinType::Semi => {
            if row_matched(kv, pk) {
                seq![probe_only_of(p)]
            } else {
                Seq::empty()
            }
        },
        JoinType::Anti => {
            if !row_matched(kv, pk) {
                seq![probe_only_of(p)]
            } else {
                Seq::empty()
            }
        },
        JoinType::Mark => seq![mark_row_of(p, mark_of(kv, has_null_build, pk))],
        _ => Seq::empty(),
    }
}

/// The unmatched pass over the first `n` probe rows, in probe-row order.
pub open spec fn phase_b_upto(jt: JoinType, kv: Seq<Seq<Option<u64>>>, has_null_build: bool, pkeys: Seq<Option<u64>>, n: int) -> Seq<IndexPair>
    decreases n,
{
    if n <= 0 {
        Seq::empty()
    } else {
        phase_b_upto(jt, kv, has_null_build, pkeys, n - 1)
            + row_phase_b(jt, kv, has_null_build, n - 1, pkeys[n - 1])
    }
}

/// Everything the unmatched pass emits for one probe batch.
pub open spec fn phase_b_rows(jt: JoinType, kv: Seq<Seq<Option<u64>>>, has_null_build: bool, pkeys: Seq<Option<u64>>) -> Seq<IndexPair> {
    phase_b_upto(jt, kv, has_null_build, pkeys, pkeys.len() as int)
}

/// Everything one probe batch emits, in emission order: the matching pass,
/// then the unmatched pass.
pub open spec fn batch_rows(jt: JoinType, kv: Seq<Seq<Option<u64>>>, has_null_build: bool, pkeys: Seq<Option<u64>>) -> Seq<IndexPair> {
    phase_a_rows(jt, kv, pkeys) + phase_b_rows(jt, kv, has_null_build, pkeys)
}

/// A probe row of a single join matched more than one build row: the
/// ambiguous case that must surface as a user-facing error.
pub open spec fn single_ambiguous(kv: Seq<Seq<Option<u64>>>, pkeys: Seq<Option<u64>>) -> bool {
    exists|p: int|
        0 <= p < pkeys.len() && (match #[trigger] pkeys[p] {
            Some(k) => match_ptrs(kv, k).len() > 1,
            None => false,
        })
}

/// A build row was matched by some probe row of this batch.
pub open spec fn build_row_touched(kv: Seq<Seq<Option<u64>>>, pkeys: Seq<Option<u64>>, c: int, r: int) -> bool {
    exists|p: int| 0 <= p < pkeys.len() && key_eq(kv[c][r], #[trigger] pkeys[p])
}

/// Whether a residual (conjunct) predicate is configured for this scratch
/// state: the slot-to-row map is allocated only then.
pub open spec fn spec_with_conjunct(state: ProbeState) -> bool {
    state.row_state_indexes is Some
}

/// Whether a probe call defers its unmatched pass to the residual step: with
/// a conjunct configured, null-extension for Left / Single / Full must wait
/// for the post-filter counters, which `apply_residual` accumulates and
/// `emit_unmatched_probe_rows` turns into output rows.
pub open spec fn defers_unmatched(jt: JoinType, state: ProbeState) -> bool {
    jt.spec_needs_row_state() && spec_with_conjunct(state)
}

/// The matched index pairs that the parallel scratch buffers currently hold.
pub open spec fn scratch_pairs(pi: Seq<(usize, usize)>, bi: Seq<RowPtr>) -> Seq<IndexPair> {
    Seq::new(pi.len(), |i: int| IndexPair { probe_row: Some(pi[i].0), build_row: Some(bi[i]), marker: None })
}

/// Drains the filled scratch buffers into one output batch of index pairs.
fn flush_scratch(state: &mut ProbeState) -> (batch: Vec<IndexPair>)
    requires
        old(state).wf(),
    ensures
        batch@ == scratch_pairs(old(state).probe_indexes@, old(state).build_indexes@),
        batch@.len() == old(state).probe_indexes@.len(),
        final(state).wf(),
        final(state).probe_indexes@.len() == 0,
        final(state).build_indexes@.len() == 0,
        final(state).valids == old(state).valids,
        final(state).true_validity == old(state).true_validity,
        final(state).row_state == old(state).row_state,
        final(state).row_state_indexes == old(state).row_state_indexes,
        final(state).markers == old(state).markers,
        final(state).max_block_size == old(state).max_block_size,
{
    let len = state.probe_indexes.len();
    let mut batch: Vec<IndexPair> = Vec::new();
    let mut i: usize = 0;
    while i < len
        invariant
            i <= len,
            len == state.probe_indexes@.len(),
            state.probe_indexes@.len() == state.build_indexes@.len(),
            batch@ == scratch_pairs(state.probe_indexes@, state.build_indexes@).take(i as int),
            state == old(state),
        decreases len - i,
    {
        let (p, _slot) = state.probe_indexes[i];
        let b = state.build_indexes[i];
        batch.push(IndexPair { probe_row: Some(p), build_row: Some(b), marker: None });
        proof {
            assert(batch@ =~= scratch_pairs(state.probe_indexes@, state.build_indexes@).take(
                i as int + 1,
            ));
        }
        i += 1;
    }
    state.probe_indexes.clear();
    state.build_indexes.clear();
    proof {
        assert(batch@ =~= scratch_pairs(old(state).probe_indexes@, old(state).build_indexes@));
    }
    batch
}

/// The batch views of a sequence of output batches.
pub open spec fn views_of(out: Seq<Vec<IndexPair>>) -> Seq<Seq<IndexPair>> {
    out.map_values(|b: Vec<IndexPair>| b@)
}

/// Extending the probed prefix by one row extends the touched set by exactly
/// that row's key matches.
proof fn lemma_touched_step(kv: Seq<Seq<Option<u64>>>, pkeys: Seq<Option<u64>>, p: int)
    requires
        0 <= p < pkeys.len(),
    ensures
        forall|c: int, r: int|
            #[trigger] build_row_touched(kv, pkeys.take(p + 1), c, r)
                == (build_row_touched(kv, pkeys.take(p), c, r) || key_eq(kv[c][r], pkeys[p])),
{
    assert forall|c: int, r: int|
        #[trigger] build_row_touched(kv, pkeys.take(p + 1), c, r)
            == (build_row_touched(kv, pkeys.take(p), c, r) || key_eq(kv[c][r], pkeys[p])) by {
        if build_row_touched(kv, pkeys.take(p + 1), c, r) {
            let q = choose|q: int|
                0 <= q < pkeys.take(p + 1).len() && key_eq(kv[c][r], #[trigger] pkeys.take(p + 1)[q]);
            if q < p {
                assert(pkeys.take(p)[q] == pkeys.take(p + 1)[q]);
                assert(build_row_touched(kv, pkeys.take(p), c, r));
            } else {
                assert(pkeys.take(p + 1)[q] == pkeys[p]);
            }
        }
        if build_row_touched(kv, pkeys.take(p), c, r) {
            let q = choose|q: int|
                0 <= q < pkeys.take(p).len() && key_eq(kv[c][r], #[trigger] pkeys.take(p)[q]);
            assert(pkeys.take(p + 1)[q] == pkeys.take(p)[q]);
            assert(build_row_touched(kv, pkeys.take(p + 1), c, r));
        }
        if key_eq(kv[c][r], pkeys[p]) {
            assert(pkeys.take(p + 1)[p] == pkeys[p]);
            assert(build_row_touched(kv, pkeys.take(p + 1), c, r));
        }
    }
}


/// The matching pass over one probe batch: candidate lookup, key
/// re-verification, pair emission with capacity-bounded flushing, match
/// counting, per-row marks, and build-row marking for Right / Full joins.
///
/// On success, the returned batches laid end to end are exactly the matching
/// pass's emission, chunked at `max_block_size`; the scratch buffers are
/// drained; `row_state` holds one match count per probe row for Left /
/// Single / Full — zeros instead when a residual is configured, since the
/// counters must then track passing matches and are accumulated by
/// `apply_residual`; `markers` holds one tri-state mark per probe row for
/// Semi / Anti / Mark; and the board has learned every build row this batch
/// matched, for Right / Full. A `Single` join without a residual fails,
/// mutating nothing the caller can observe, exactly when some probe row
/// matches more than one build row; with a residual the judgment belongs to
/// `check_single`, on the passing matches.
#[verifier::loop_isolation(false)]
#[verifier::rlimit(100)]
fn probe_phase_a(
    table: &JoinHashTable,
    state: &mut ProbeState,
    board: &mut MarkerBoard,
    probe_keys: &Vec<Option<u64>>,
) -> (res: Result<Vec<Vec<IndexPair>>, JoinError>)
    requires
        table.wf(),
        table.sealed,
        old(state).wf(),
        old(state).compatible(table.join_type),
        old(board).wf_for(table.kview()),
        probe_keys@.len() <= old(state).max_block_size,
    ensures
        final(state).wf(),
        final(state).compatible(table.join_type),
        final(state).max_block_size == old(state).max_block_size,
        final(state).row_state_indexes == old(state).row_state_indexes,
        final(state).true_validity == old(state).true_validity,
        final(board).wf_for(table.kview()),
        res is Err <==> (table.join_type == JoinType::Single && !spec_with_conjunct(*old(state))
            && single_ambiguous(table.kview(), probe_keys@)),
        res matches Err(e) ==> {
            &&& e == JoinError::SingleJoinAmbiguity
            &&& *final(board) == *old(board)
        },
        res matches Ok(out) ==> {
            &&& views_of(out@) == chunks_of(
                phase_a_rows(table.join_type, table.kview(), probe_keys@),
                old(state).max_block_size as int,
            )
            &&& forall|c: int, r: int|
                0 <= c < table.kview().len() && 0 <= r < table.kview()[c].len()
                    ==> #[trigger] final(board).view_flags()[c][r] == (old(
                    board,
                ).view_flags()[c][r] || (table.join_type.spec_marks_build_rows()
                    && build_row_touched(table.kview(), probe_keys@, c, r)))
            &&& final(state).probe_indexes@.len() == 0
            &&& final(state).build_indexes@.len() == 0
            &&& (table.join_type.spec_needs_row_state() ==> (final(state).row_state matches Some(v)
                && v@.len() == probe_keys@.len() && forall|i: int|
                0 <= i < v@.len() ==> #[trigger] v@[i] as int == (
                if spec_with_conjunct(*old(state)) {
                    0int
                } else {
                    row_match_list(table.join_type, table.kview(), probe_keys@[i]).len() as int
                })))
            &&& (!table.join_type.spec_needs_row_state() ==> final(state).row_state == old(
                state,
            ).row_state)
            &&& (table.join_type.spec_needs_markers() ==> (final(state).markers matches Some(v)
                && v@.len() == probe_keys@.len() && forall|i: int|
                0 <= i < v@.len() ==> #[trigger] v@[i] == mark_of(
                    table.kview(),
                    table.has_null_build_key,
                    probe_keys@[i],
                )))
            &&& (!table.join_type.spec_needs_markers() ==> final(state).markers == old(
                state,
            ).markers)
        },
{
    let ghost kv = table.kview();
    let ghost pkeys = probe_keys@;
    let jt = table.join_type;
    let n = probe_keys.len();
    let max = state.max_block_size;
    let hn = table.has_null_build_key;
    let with_conjunct = state.row_state_indexes.is_some();
    proof {
        lemma_kview_bounded(&table.chunks);
        assert(with_conjunct == spec_with_conjunct(*old(state)));
    }

    // A new batch: reset the validity bitmap and the pair scratch.
    state.valids = None;
    state.probe_indexes.clear();
    state.build_indexes.clear();

    // Which probe rows carry a non-null key.
    let mut any_null = false;
    let mut vbits: Vec<bool> = Vec::new();
    let mut q: usize = 0;
    while q < n
        invariant
            q <= n,
            vbits@.len() == q,
            forall|i: int| 0 <= i < q ==> vbits@[i] == (#[trigger] pkeys[i] is Some),
            any_null == exists|i: int| 0 <= i < q && #[trigger] pkeys[i] is None,
            state.valids is None,
            state.true_validity == old(state).true_validity,
            state.row_state == old(state).row_state,
            state.row_state_indexes == old(state).row_state_indexes,
            state.markers == old(state).markers,
            state.max_block_size == max,
            state.probe_indexes@.len() == 0,
            state.build_indexes@.len() == 0,
        decreases n - q,
    {
        match probe_keys[q] {
            Some(_) => {
                vbits.push(true);
            },
            None => {
                vbits.push(false);
                any_null = true;
                assert(pkeys[q as int] is None);
            },
        }
        q += 1;
    }
    if any_null {
        state.valids = Some(vbits);
    }
    let ghost valids_now = state.valids;

    // Per-row bookkeeping built during the matching pass.
    let mut rs: Vec<usize> = Vec::new();
    let mut marks: Vec<MarkerKind> = Vec::new();
    let mut out: Vec<Vec<IndexPair>> = Vec::new();

    let mut p: usize = 0;
    while p < n
        invariant
            p <= n,
            state.wf(),
            state.valids == valids_now,
            state.true_validity == old(state).true_validity,
            state.row_state == old(state).row_state,
            state.row_state_indexes == old(state).row_state_indexes,
            state.markers == old(state).markers,
            state.max_block_size == max,
            state.probe_indexes@.len() == state.build_indexes@.len(),
            state.probe_indexes@.len() < max,
            match valids_now {
                Some(v) => v@.len() == n && forall|i: int|
                    0 <= i < n ==> v@[i] == (#[trigger] pkeys[i] is Some),
                None => forall|i: int| 0 <= i < n ==> #[trigger] pkeys[i] is Some,
            },
            forall|i: int|
                0 <= i < views_of(out@).len() ==> (#[trigger] views_of(out@)[i]).len() == max,
            flatten_all(views_of(out@)) + scratch_pairs(
                state.probe_indexes@,
                state.build_indexes@,
            ) == phase_a_upto(jt, kv, pkeys, p as int),
            board.wf_for(kv),
            !jt.spec_marks_build_rows() ==> board == old(board),
            forall|c: int, r: int|
                0 <= c < kv.len() && 0 <= r < kv[c].len()
                    ==> #[trigger] board.view_flags()[c][r] == (old(board).view_flags()[c][r]
                        || (jt.spec_marks_build_rows() && build_row_touched(
                        kv,
                        pkeys.take(p as int),
                        c,
                        r,
                    ))),
            with_conjunct == spec_with_conjunct(*old(state)),
            rs@.len() == (if jt.spec_needs_row_state() { p as int } else { 0 }),
            forall|i: int|
                0 <= i < rs@.len() ==> #[trigger] rs@[i] as int == (if with_conjunct {
                    0int
                } else {
                    row_match_list(jt, kv, pkeys[i]).len() as int
                }),
            marks@.len() == (if jt.spec_needs_markers() { p as int } else { 0 }),
            forall|i: int|
                0 <= i < marks@.len() ==> #[trigger] marks@[i] == mark_of(kv, hn, pkeys[i]),
            jt == JoinType::Single && !with_conjunct ==> forall|i: int|
                0 <= i < p ==> (match #[trigger] pkeys[i] {
                    Some(k) => match_ptrs(kv, k).len() <= 1,
                    None => true,
                }),
        decreases n - p,
    {
        let pk = probe_keys[p];
        let valid = match &state.valids {
            Some(v) => v[p],
            None => state.true_validity[p],
        };
        proof {
            assert(valid == (pkeys[p as int] is Some));
        }
        let ms: Vec<RowPtr> = if jt == JoinType::Cross {
            table.all_row_ptrs()
        } else if valid {
            match pk {
                Some(k) => table.probe_key(k),
                None => Vec::new(),
            }
        } else {
            Vec::new()
        };
        proof {
            assert(ms@ == row_match_list(jt, kv, pkeys[p as int]));
        }
        if jt == JoinType::Single && !with_conjunct && ms.len() > 1 {
            proof {
                assert(pkeys[p as int] is Some);
                assert(single_ambiguous(kv, pkeys));
            }
            return Err(JoinError::SingleJoinAmbiguity);
        }
        if jt.emits_pairs() {
            proof {
                if jt.spec_marks_build_rows() && pkeys[p as int] is Some {
                    lemma_matches_contains(kv, kv.len() as int, pkeys[p as int].unwrap());
                }
            }
            let mut j: usize = 0;
            while j < ms.len()
                invariant
                    j <= ms@.len(),
                    ms@ == row_match_list(jt, kv, pkeys[p as int]),
                    p < n,
                    state.wf(),
                    state.valids == valids_now,
                    state.true_validity == old(state).true_validity,
                    state.row_state == old(state).row_state,
                    state.row_state_indexes == old(state).row_state_indexes,
                    state.markers == old(state).markers,
                    state.max_block_size == max,
                    state.probe_indexes@.len() == state.build_indexes@.len(),
                    state.probe_indexes@.len() < max,
                    forall|i: int|
                        0 <= i < views_of(out@).len() ==> (#[trigger] views_of(out@)[i]).len()
                            == max,
                    flatten_all(views_of(out@)) + scratch_pairs(
                        state.probe_indexes@,
                        state.build_indexes@,
                    ) == phase_a_upto(jt, kv, pkeys, p as int) + pair_rows(
                        p as int,
                        ms@.take(j as int),
                    ),
                    board.wf_for(kv),
                    !jt.spec_marks_build_rows() ==> board == old(board),
                    forall|c: int, r: int|
                        0 <= c < kv.len() && 0 <= r < kv[c].len()
                            ==> #[trigger] board.view_flags()[c][r] == (old(
                            board,
                        ).view_flags()[c][r] || (jt.spec_marks_build_rows() && (build_row_touched(
                            kv,
                            pkeys.take(p as int),
                            c,
                            r,
                        ) || ms@.take(j as int).contains(mk_ptr(c, r))))),
                decreases ms@.len() - j,
            {
                let b = ms[j];
                proof {
                    assert(ms@.take(j as int + 1).drop_last() =~= ms@.take(j as int));
                    assert(ms@.take(j as int + 1).last() == ms@[j as int]);
                    if jt.spec_marks_build_rows() {
                        assert(ms@.contains(b)) by {
                            assert(ms@[j as int] == b);
                        }
                        assert(pkeys[p as int] is Some);
                        assert(b.marker is None && (b.chunk_index as int) < kv.len()
                            && (b.row_index as int) < kv[b.chunk_index as int].len());
                        assert(b == mk_ptr(b.chunk_index as int, b.row_index as int));
                    }
                }
                let slot = state.probe_indexes.len();
                let ghost old_pi = state.probe_indexes@;
                let ghost old_bi = state.build_indexes@;
                let ghost old_flags = board.view_flags();
                state.probe_indexes.push((p, slot));
                state.build_indexes.push(b);
                proof {
                    assert(scratch_pairs(state.probe_indexes@, state.build_indexes@)
                        =~= scratch_pairs(old_pi, old_bi).push(pair_of(p as int, b)));
                    assert(pair_rows(p as int, ms@.take(j as int + 1)) =~= pair_rows(
                        p as int,
                        ms@.take(j as int),
                    ).push(pair_of(p as int, ms@[j as int])));
                    assert(flatten_all(views_of(out@)) + scratch_pairs(
                        state.probe_indexes@,
                        state.build_indexes@,
                    ) =~= (flatten_all(views_of(out@)) + scratch_pairs(old_pi, old_bi)).push(
                        pair_of(p as int, b),
                    ));
                    assert((phase_a_upto(jt, kv, pkeys, p as int) + pair_rows(
                        p as int,
                        ms@.take(j as int),
                    )).push(pair_of(p as int, ms@[j as int])) =~= phase_a_upto(
                        jt,
                        kv,
                        pkeys,
                        p as int,
                    ) + pair_rows(p as int, ms@.take(j as int + 1)));
                }
                if jt.marks_build_rows() {
                    board.set_matched(b);
                    proof {
                        assert forall|c: int, r: int|
                            0 <= c < kv.len() && 0 <= r < kv[c].len()
                                implies #[trigger] board.view_flags()[c][r] == (old(
                                board,
                            ).view_flags()[c][r] || (jt.spec_marks_build_rows() && (
                            build_row_touched(kv, pkeys.take(p as int), c, r) || ms@.take(
                                j as int + 1,
                            ).contains(mk_ptr(c, r))))) by {
                            if c == b.chunk_index as int && r == b.row_index as int {
                                assert(ms@.take(j as int + 1)[j as int] == b);
                                assert(ms@.take(j as int + 1).contains(mk_ptr(c, r)));
                            } else {
                                assert(board.view_flags()[c][r] == old_flags[c][r]);
                                if ms@.take(j as int + 1).contains(mk_ptr(c, r)) {
                                    let idx = choose|idx: int|
                                        0 <= idx < ms@.take(j as int + 1).len()
                                            && #[trigger] ms@.take(j as int + 1)[idx] == mk_ptr(
                                            c,
                                            r,
                                        );
                                    if idx < j {
                                        assert(ms@.take(j as int)[idx] == mk_ptr(c, r));
                                        assert(ms@.take(j as int).contains(mk_ptr(c, r)));
                                    } else {
                                        assert(mk_ptr(c, r) == b);
                                        assert(false);
                                    }
                                }
                                if ms@.take(j as int).contains(mk_ptr(c, r)) {
                                    let idx = choose|idx: int|
                                        0 <= idx < ms@.take(j as int).len() && #[trigger] ms@.take(
                                            j as int,
                                        )[idx] == mk_ptr(c, r);
                                    assert(ms@.take(j as int + 1)[idx] == mk_ptr(c, r));
                                    assert(ms@.take(j as int + 1).contains(mk_ptr(c, r)));
                                }
                            }
                        }
                    }
                }
                if state.probe_indexes.len() == max {
                    let ghost pre_views = views_of(out@);
                    let ghost pre_pi = state.probe_indexes@;
                    let ghost pre_bi = state.build_indexes@;
                    let batch = flush_scratch(state);
                    out.push(batch);
                    proof {
                        assert(views_of(out@) =~= pre_views.push(batch@));
                        lemma_flatten_all_push(pre_views, batch@);
                        assert(scratch_pairs(state.probe_indexes@, state.build_indexes@)
                            =~= Seq::<IndexPair>::empty());
                        assert(flatten_all(views_of(out@)) + scratch_pairs(
                            state.probe_indexes@,
                            state.build_indexes@,
                        ) =~= flatten_all(pre_views) + scratch_pairs(pre_pi, pre_bi));
                    }
                }
                j += 1;
            }
            proof {
                assert(ms@.take(ms@.len() as int) =~= ms@);
            }
        }
        proof {
            // The matching pass of row p is complete.
            assert(phase_a_upto(jt, kv, pkeys, p as int + 1) == phase_a_upto(
                jt,
                kv,
                pkeys,
                p as int,
            ) + row_phase_a(jt, kv, p as int, pkeys[p as int]));
            if jt.spec_emits_pairs() {
                assert(row_phase_a(jt, kv, p as int, pkeys[p as int]) == pair_rows(p as int, ms@));
            } else {
                assert(row_phase_a(jt, kv, p as int, pkeys[p as int]) =~= Seq::<
                    IndexPair,
                >::empty());
                assert(phase_a_upto(jt, kv, pkeys, p as int + 1) =~= phase_a_upto(
                    jt,
                    kv,
                    pkeys,
                    p as int,
                ));
            }
        }
        if jt.needs_row_state() {
            if with_conjunct {
                // The counters track matches that pass the residual filter;
                // they start at zero and `apply_residual` accumulates them.
                rs.push(0);
            } else {
                rs.push(ms.len());
            }
        }
        if jt.needs_markers() {
            let m = match pk {
                None => MarkerKind::MatchedNull,
                Some(_) => if ms.len() > 0 {
                    MarkerKind::Matched
                } else if hn {
                    MarkerKind::MatchedNull
                } else {
                    MarkerKind::Unmatched
                },
            };
            proof {
                assert(m == mark_of(kv, hn, pkeys[p as int]));
            }
            marks.push(m);
        }
        proof {
            if jt.spec_marks_build_rows() {
                lemma_touched_step(kv, pkeys, p as int);
                if pkeys[p as int] is Some {
                    lemma_matches_contains(kv, kv.len() as int, pkeys[p as int].unwrap());
                }
                assert forall|c: int, r: int| 0 <= c < kv.len() && 0 <= r < kv[c].len()
                    implies (build_row_touched(kv, pkeys.take(p as int), c, r) || ms@.contains(
                    mk_ptr(c, r),
                )) == build_row_touched(kv, pkeys.take(p as int + 1), c, r) by {
                    if ms@.contains(mk_ptr(c, r)) {
                        assert(key_eq(kv[c][r], pkeys[p as int]));
                    }
                    if key_eq(kv[c][r], pkeys[p as int]) {
                        assert(pkeys[p as int] is Some);
                        assert(ms@.contains(mk_ptr(c, r)));
                    }
                }
            }
        }
        p += 1;
    }

    // Drain what the matching pass still holds.
    let ghost a_full = phase_a_rows(jt, kv, pkeys);
    let ghost a_batches = views_of(out@);
    let ghost a_tail = scratch_pairs(state.probe_indexes@, state.build_indexes@);
    proof {
        assert(pkeys.take(n as int) =~= pkeys);
        assert(flatten_all(a_batches) + a_tail == a_full);
        lemma_chunks_reconstruct(a_batches, a_tail, a_full, max as int);
    }
    if state.probe_indexes.len() > 0 {
        let ghost pre_views = views_of(out@);
        let batch = flush_scratch(state);
        out.push(batch);
        proof {
            assert(views_of(out@) =~= pre_views.push(batch@));
        }
    }
    proof {
        assert(views_of(out@) == chunks_of(a_full, max as int));
        if jt == JoinType::Single && !with_conjunct && single_ambiguous(kv, pkeys) {
            let bad = choose|i: int|
                0 <= i < pkeys.len() && (match #[trigger] pkeys[i] {
                    Some(k) => match_ptrs(kv, k).len() > 1,
                    None => false,
                });
            assert(false);
        }
    }

    // Publish the per-row bookkeeping into the reusable scratch state.
    if jt.needs_row_state() {
        state.row_state = Some(rs);
    }
    if jt.needs_markers() {
        state.markers = Some(marks);
    }
    Ok(out)
}

/// The unmatched pass over one probe batch: emits, per probe row and in row
/// order, whatever the join type owes beyond the matched pairs, reading the
/// bookkeeping the matching pass left in the scratch state. Appends the
/// resulting batches, chunked at `max_block_size`, behind the batches
/// already in `out`.
#[verifier::loop_isolation(false)]
#[verifier::rlimit(100)]
fn probe_phase_b(
    table: &JoinHashTable,
    state: &ProbeState,
    out: &mut Vec<Vec<IndexPair>>,
    probe_keys: &Vec<Option<u64>>,
)
    requires
        table.wf(),
        state.wf(),
        probe_keys@.len() <= state.max_block_size,
        table.join_type.spec_needs_row_state() ==> (state.row_state matches Some(v) && v@.len()
            == probe_keys@.len() && forall|i: int|
            0 <= i < v@.len() ==> #[trigger] v@[i] as int == row_match_list(
                table.join_type,
                table.kview(),
                probe_keys@[i],
            ).len()),
        table.join_type.spec_needs_markers() ==> (state.markers matches Some(v) && v@.len()
            == probe_keys@.len() && forall|i: int|
            0 <= i < v@.len() ==> #[trigger] v@[i] == mark_of(
                table.kview(),
                table.has_null_build_key,
                probe_keys@[i],
            )),
    ensures
        views_of(final(out)@) == views_of(old(out)@) + chunks_of(
            phase_b_rows(
                table.join_type,
                table.kview(),
                table.has_null_build_key,
                probe_keys@,
            ),
            state.max_block_size as int,
        ),
{
    let ghost kv = table.kview();
    let ghost pkeys = probe_keys@;
    let jt = table.join_type;
    let n = probe_keys.len();
    let max = state.max_block_size;
    let hn = table.has_null_build_key;
    let ghost base = views_of(out@);
    let ghost b_full = phase_b_rows(jt, kv, hn, pkeys);
    let mut cur: Vec<IndexPair> = Vec::new();
    proof {
        assert(views_of(out@).skip(base.len() as int) =~= Seq::<Seq<IndexPair>>::empty());
        assert(flatten_all(Seq::<Seq<IndexPair>>::empty()) == Seq::<IndexPair>::empty());
        assert(flatten_all(views_of(out@).skip(base.len() as int)) + cur@ =~= Seq::<
            IndexPair,
        >::empty());
        assert(views_of(out@).take(base.len() as int) =~= views_of(out@));
    }
    let mut p2: usize = 0;
    while p2 < n
        invariant
            p2 <= n,
            cur@.len() < max,
            views_of(out@).len() >= base.len(),
            views_of(out@).take(base.len() as int) == base,
            forall|i: int|
                base.len() <= i < views_of(out@).len() ==> (#[trigger] views_of(out@)[i]).len()
                    == max,
            flatten_all(views_of(out@).skip(base.len() as int)) + cur@ == phase_b_upto(
                jt,
                kv,
                hn,
                pkeys,
                p2 as int,
            ),
        decreases n - p2,
    {
        let row: Option<IndexPair> = match jt {
            JoinType::Left | JoinType::Single | JoinType::Full => {
                let zero = match &state.row_state {
                    Some(v) => v[p2] == 0,
                    None => false,
                };
                if zero {
                    Some(IndexPair { probe_row: Some(p2), build_row: None, marker: None })
                } else {
                    None
                }
            },
            JoinType::Semi => {
                let matched = match &state.markers {
                    Some(v) => v[p2] == MarkerKind::Matched,
                    None => false,
                };
                if matched {
                    Some(IndexPair { probe_row: Some(p2), build_row: None, marker: None })
                } else {
                    None
                }
            },
            JoinType::Anti => {
                let matched = match &state.markers {
                    Some(v) => v[p2] == MarkerKind::Matched,
                    None => true,
                };
                if !matched {
                    Some(IndexPair { probe_row: Some(p2), build_row: None, marker: None })
                } else {
                    None
                }
            },
            JoinType::Mark => {
                let m = match &state.markers {
                    Some(v) => v[p2],
                    None => MarkerKind::Unmatched,
                };
                Some(IndexPair { probe_row: Some(p2), build_row: None, marker: Some(m) })
            },
            _ => None,
        };
        proof {
            let expected = row_phase_b(jt, kv, hn, p2 as int, pkeys[p2 as int]);
            match row {
                Some(ip) => {
                    assert(expected =~= seq![ip]);
                },
                None => {
                    assert(expected =~= Seq::<IndexPair>::empty());
                },
            }
            assert(phase_b_upto(jt, kv, hn, pkeys, p2 as int + 1) == phase_b_upto(
                jt,
                kv,
                hn,
                pkeys,
                p2 as int,
            ) + expected);
        }
        match row {
            Some(ip) => {
                let ghost pre_cur = cur@;
                cur.push(ip);
                proof {
                    assert(flatten_all(views_of(out@).skip(base.len() as int)) + cur@
                        =~= (flatten_all(views_of(out@).skip(base.len() as int))
                        + pre_cur).push(ip));
                    assert(phase_b_upto(jt, kv, hn, pkeys, p2 as int) + seq![ip]
                        =~= (phase_b_upto(jt, kv, hn, pkeys, p2 as int)).push(ip));
                }
                if cur.len() == max {
                    let ghost pre_views = views_of(out@);
                    let ghost pre_skip = views_of(out@).skip(base.len() as int);
                    let full = cur;
                    cur = Vec::new();
                    let ghost fullv = full@;
                    out.push(full);
                    proof {
                        assert(views_of(out@) =~= pre_views.push(fullv));
                        assert(views_of(out@).skip(base.len() as int) =~= pre_skip.push(fullv));
                        assert(views_of(out@).take(base.len() as int) =~= pre_views.take(
                            base.len() as int,
                        ));
                        lemma_flatten_all_push(pre_skip, fullv);
                        assert(flatten_all(views_of(out@).skip(base.len() as int)) + cur@
                            =~= flatten_all(pre_skip) + fullv);
                    }
                }
            },
            None => {
                proof {
                    assert(phase_b_upto(jt, kv, hn, pkeys, p2 as int + 1) =~= phase_b_upto(
                        jt,
                        kv,
                        hn,
                        pkeys,
                        p2 as int,
                    ));
                }
            },
        }
        p2 += 1;
    }
    let ghost b_batches = views_of(out@).skip(base.len() as int);
    proof {
        assert(flatten_all(b_batches) + cur@ == b_full);
        lemma_chunks_reconstruct(b_batches, cur@, b_full, max as int);
    }
    if cur.len() > 0 {
        let ghost pre_views = views_of(out@);
        let ghost tailv = cur@;
        out.push(cur);
        proof {
            assert(views_of(out@) =~= pre_views.push(tailv));
        }
    }
    proof {
        assert(views_of(out@) =~= base + chunks_of(b_full, max as int));
    }
}

/// Probes one batch of evaluated probe keys against the sealed table and
/// returns the output batches it owes, each at most `max_block_size` rows.
///
/// The returned batches, laid end to end, are exactly the matching pass
/// followed by the unmatched pass, each split into maximal batches: within
/// the batch, matches come in probe-row order and, per probe row, in build
/// arrival order. For Right / Full joins the worker's marker board learns
/// every build row this batch matched. A `Single` join without a residual
/// fails, mutating nothing the caller can observe, exactly when some probe
/// row matches more than one build row.
///
/// With a residual (conjunct) predicate configured (the scratch state holds
/// a slot-to-row map), a Left / Single / Full probe defers its unmatched
/// pass: only the candidate pairs are returned, the counters are left at
/// zero, and the caller finishes the batch with `apply_residual`,
/// `check_single` for a Single join, and `emit_unmatched_probe_rows` — a
/// probe row whose matches all fail the predicate is null-extended there,
/// and a Single row is ambiguous only on its passing matches.
///
/// The probe batch may not exceed the scratch capacity `max_block_size`:
/// every per-row buffer is bounded by it.
pub fn probe_batch(
    table: &JoinHashTable,
    state: &mut ProbeState,
    board: &mut MarkerBoard,
    probe_keys: &Vec<Option<u64>>,
) -> (res: Result<Vec<Vec<IndexPair>>, JoinError>)
    requires
        table.wf(),
        table.sealed,
        old(state).wf(),
        old(state).compatible(table.join_type),
        old(board).wf_for(table.kview()),
        probe_keys@.len() <= old(state).max_block_size,
    ensures
        final(state).wf(),
        final(state).compatible(table.join_type),
        final(state).max_block_size == old(state).max_block_size,
        final(state).row_state_indexes == old(state).row_state_indexes,
        final(board).wf_for(table.kview()),
        res is Err <==> (table.join_type == JoinType::Single && !spec_with_conjunct(*old(state))
            && single_ambiguous(table.kview(), probe_keys@)),
        res matches Err(e) ==> {
            &&& e == JoinError::SingleJoinAmbiguity
            &&& *final(board) == *old(board)
        },
        res matches Ok(out) ==> {
            &&& views_of(out@) == chunks_of(
                phase_a_rows(table.join_type, table.kview(), probe_keys@),
                old(state).max_block_size as int,
            ) + (if defers_unmatched(table.join_type, *old(state)) {
                Seq::<Seq<IndexPair>>::empty()
            } else {
                chunks_of(
                    phase_b_rows(
                        table.join_type,
                        table.kview(),
                        table.has_null_build_key,
                        probe_keys@,
                    ),
                    old(state).max_block_size as int,
                )
            })
            &&& forall|c: int, r: int|
                0 <= c < table.kview().len() && 0 <= r < table.kview()[c].len()
                    ==> #[trigger] final(board).view_flags()[c][r] == (old(
                    board,
                ).view_flags()[c][r] || (table.join_type.spec_marks_build_rows()
                    && build_row_touched(table.kview(), probe_keys@, c, r)))
            &&& final(state).probe_indexes@.len() == 0
            &&& (defers_unmatched(table.join_type, *old(state))
                ==> (final(state).row_state matches Some(v) && v@.len() == probe_keys@.len()
                && forall|i: int| 0 <= i < v@.len() ==> #[trigger] v@[i] == 0))
        },
{
    match probe_phase_a(table, state, board, probe_keys) {
        Err(e) => Err(e),
        Ok(mut out) => {
            if table.join_type.needs_row_state() && state.row_state_indexes.is_some() {
                // A residual is configured: the unmatched pass waits for the
                // post-filter counters.
                proof {
                    assert(views_of(out@) + Seq::<Seq<IndexPair>>::empty() =~= views_of(out@));
                }
            } else {
                probe_phase_b(table, state, &mut out, probe_keys);
            }
            Ok(out)
        },
    }
}

} // verus!
