use hash_join::chunk::Chunk;
use hash_join::join_type::JoinError;
use hash_join::join_type::JoinType;
use hash_join::markers::MarkerBoard;
use hash_join::probe::probe_batch;
use hash_join::probe::IndexPair;
use hash_join::probe_state::ProbeState;
use hash_join::reconcile::finalize;
use hash_join::row_ptr::MarkerKind;
use hash_join::row_ptr::RowPtr;
use hash_join::table::JoinHashTable;

fn ptr(c: usize, r: usize) -> RowPtr {
    RowPtr { chunk_index: c, row_index: r, marker: None }
}

fn pair(p: usize, c: usize, r: usize) -> IndexPair {
    IndexPair { probe_row: Some(p), build_row: Some(ptr(c, r)), marker: None }
}

fn probe_only(p: usize) -> IndexPair {
    IndexPair { probe_row: Some(p), build_row: None, marker: None }
}

fn build_only(c: usize, r: usize) -> IndexPair {
    IndexPair { probe_row: None, build_row: Some(ptr(c, r)), marker: None }
}

fn mark_row(p: usize, m: MarkerKind) -> IndexPair {
    IndexPair { probe_row: Some(p), build_row: None, marker: Some(m) }
}

/// The build side of the running scenario: rows (key=1,"x"), (key=2,"y"),
/// (key=1,"z"), with the payload letters encoded as 100, 200, 300.
fn scenario_table(jt: JoinType) -> JoinHashTable {
    let mut t = JoinHashTable::create(jt, 8, 1000, 1);
    let chunk = Chunk::new(
        vec![Some(1), Some(2), Some(1)],
        vec![vec![100], vec![200], vec![300]],
    );
    t.add_chunk(chunk).unwrap();
    t.seal();
    t
}

fn run(jt: JoinType, probe_keys: Vec<Option<u64>>) -> Vec<Vec<IndexPair>> {
    let t = scenario_table(jt);
    let mut state = ProbeState::create(jt, false, 16);
    let mut board = MarkerBoard::create_for(&t);
    probe_batch(&t, &mut state, &mut board, &probe_keys).unwrap()
}

#[test]
fn inner_scenario() {
    let out = run(JoinType::Inner, vec![Some(1), Some(3)]);
    assert_eq!(out, vec![vec![pair(0, 0, 0), pair(0, 0, 2)]]);
}

#[test]
fn left_scenario() {
    let out = run(JoinType::Left, vec![Some(1), Some(3)]);
    assert_eq!(out, vec![vec![pair(0, 0, 0), pair(0, 0, 2)], vec![probe_only(1)]]);
}

#[test]
fn semi_scenario() {
    let out = run(JoinType::Semi, vec![Some(1), Some(3)]);
    assert_eq!(out, vec![vec![probe_only(0)]]);
}

#[test]
fn anti_scenario() {
    let out = run(JoinType::Anti, vec![Some(1), Some(3)]);
    assert_eq!(out, vec![vec![probe_only(1)]]);
}

#[test]
fn mark_scenario() {
    let out = run(JoinType::Mark, vec![Some(1), Some(3)]);
    assert_eq!(
        out,
        vec![vec![mark_row(0, MarkerKind::Matched), mark_row(1, MarkerKind::Unmatched)]]
    );
}

#[test]
fn mark_null_probe_key_is_unknown() {
    let out = run(JoinType::Mark, vec![None]);
    assert_eq!(out, vec![vec![mark_row(0, MarkerKind::MatchedNull)]]);
}

#[test]
fn mark_unmatched_with_null_build_key_is_unknown() {
    let mut t = JoinHashTable::create(JoinType::Mark, 8, 1000, 0);
    t.add_chunk(Chunk::new(vec![Some(1), None], vec![vec![], vec![]])).unwrap();
    t.seal();
    let mut state = ProbeState::create(JoinType::Mark, false, 16);
    let mut board = MarkerBoard::create_for(&t);
    let out = probe_batch(&t, &mut state, &mut board, &vec![Some(9)]).unwrap();
    assert_eq!(out, vec![vec![mark_row(0, MarkerKind::MatchedNull)]]);
}

#[test]
fn single_join_ambiguity_is_an_error() {
    let t = scenario_table(JoinType::Single);
    let mut state = ProbeState::create(JoinType::Single, false, 16);
    let mut board = MarkerBoard::create_for(&t);
    let res = probe_batch(&t, &mut state, &mut board, &vec![Some(1)]);
    assert_eq!(res, Err(JoinError::SingleJoinAmbiguity));
}

#[test]
fn single_join_unique_match_passes() {
    let out = run(JoinType::Single, vec![Some(2), Some(7)]);
    assert_eq!(out, vec![vec![pair(0, 0, 1)], vec![probe_only(1)]]);
}

#[test]
fn right_join_finalize_emits_unmatched_build_rows() {
    let t = scenario_table(JoinType::Right);
    let mut state = ProbeState::create(JoinType::Right, false, 16);
    let mut board = MarkerBoard::create_for(&t);
    let out = probe_batch(&t, &mut state, &mut board, &vec![Some(1)]).unwrap();
    assert_eq!(out, vec![vec![pair(0, 0, 0), pair(0, 0, 2)]]);
    let rest = finalize(&t, &board, 16);
    assert_eq!(rest, vec![vec![build_only(0, 1)]]);
}

#[test]
fn full_join_covers_both_sides() {
    let t = scenario_table(JoinType::Full);
    let mut state = ProbeState::create(JoinType::Full, false, 16);
    let mut board = MarkerBoard::create_for(&t);
    let out = probe_batch(&t, &mut state, &mut board, &vec![Some(1), Some(3)]).unwrap();
    assert_eq!(out, vec![vec![pair(0, 0, 0), pair(0, 0, 2)], vec![probe_only(1)]]);
    let rest = finalize(&t, &board, 16);
    assert_eq!(rest, vec![vec![build_only(0, 1)]]);
}

#[test]
fn finalize_owes_nothing_to_inner_joins() {
    let t = scenario_table(JoinType::Inner);
    let board = MarkerBoard::create_for(&t);
    let rest = finalize(&t, &board, 16);
    assert!(rest.is_empty());
}

#[test]
fn cross_join_pairs_everything() {
    let out = run(JoinType::Cross, vec![Some(1), None]);
    assert_eq!(
        out,
        vec![vec![
            pair(0, 0, 0),
            pair(0, 0, 1),
            pair(0, 0, 2),
            pair(1, 0, 0),
            pair(1, 0, 1),
            pair(1, 0, 2),
        ]]
    );
}

#[test]
fn batch_size_boundary_yields_ceil_batches() {
    // Three matches against a maximum batch size of two: ceil(3/2) = 2
    // batches, full then remainder, in probe-row then build order.
    let mut t = JoinHashTable::create(JoinType::Inner, 8, 1000, 1);
    t.add_chunk(Chunk::new(
        vec![Some(1), Some(1), Some(1)],
        vec![vec![100], vec![200], vec![300]],
    ))
    .unwrap();
    t.seal();
    let mut state = ProbeState::create(JoinType::Inner, false, 2);
    let mut board = MarkerBoard::create_for(&t);
    let out = probe_batch(&t, &mut state, &mut board, &vec![Some(1)]).unwrap();
    assert_eq!(out.len(), 2);
    assert_eq!(out[0], vec![pair(0, 0, 0), pair(0, 0, 1)]);
    assert_eq!(out[1], vec![pair(0, 0, 2)]);
}

#[test]
fn resume_spans_probe_rows_without_loss() {
    // Two probe rows with two matches each under a maximum of three: the
    // second row's matches straddle the batch boundary.
    let mut t = JoinHashTable::create(JoinType::Inner, 4, 1000, 0);
    t.add_chunk(Chunk::new(vec![Some(5), Some(5)], vec![vec![], vec![]])).unwrap();
    t.seal();
    let mut state = ProbeState::create(JoinType::Inner, false, 3);
    let mut board = MarkerBoard::create_for(&t);
    let out = probe_batch(&t, &mut state, &mut board, &vec![Some(5), Some(5)]).unwrap();
    assert_eq!(out.len(), 2);
    assert_eq!(out[0], vec![pair(0, 0, 0), pair(0, 0, 1), pair(1, 0, 0)]);
    assert_eq!(out[1], vec![pair(1, 0, 1)]);
}

#[test]
fn memory_budget_exceeded_fails_and_leaves_table_usable() {
    let mut t = JoinHashTable::create(JoinType::Inner, 8, 2, 0);
    let res = t.add_chunk(Chunk::new(vec![Some(1), Some(2), Some(3)], vec![vec![], vec![], vec![]]));
    assert_eq!(res, Err(JoinError::MemoryBudgetExceeded));
    assert_eq!(t.add_chunk(Chunk::new(vec![Some(1)], vec![vec![]])), Ok(()));
}

#[test]
fn null_build_keys_are_stored_but_never_match() {
    let mut t = JoinHashTable::create(JoinType::Left, 8, 1000, 0);
    t.add_chunk(Chunk::new(vec![None, Some(4)], vec![vec![], vec![]])).unwrap();
    t.seal();
    let mut state = ProbeState::create(JoinType::Left, false, 16);
    let mut board = MarkerBoard::create_for(&t);
    let out = probe_batch(&t, &mut state, &mut board, &vec![Some(4), None]).unwrap();
    assert_eq!(out, vec![vec![pair(0, 0, 1)], vec![probe_only(1)]]);
}

#[test]
fn duplicate_build_keys_stay_separate_candidates() {
    let mut t = JoinHashTable::create(JoinType::Inner, 2, 1000, 0);
    t.add_chunk(Chunk::new(vec![Some(7)], vec![vec![]])).unwrap();
    t.add_chunk(Chunk::new(vec![Some(7), Some(9)], vec![vec![], vec![]])).unwrap();
    t.seal();
    let out = {
        let mut state = ProbeState::create(JoinType::Inner, false, 16);
        let mut board = MarkerBoard::create_for(&t);
        probe_batch(&t, &mut state, &mut board, &vec![Some(7)]).unwrap()
    };
    // Chunk arrival order first, then row order within the chunk.
    assert_eq!(out, vec![vec![pair(0, 0, 0), pair(0, 1, 0)]]);
}

#[test]
fn hash_collisions_do_not_fabricate_matches() {
    // One bucket only: every key collides, equality is still re-verified.
    let mut t = JoinHashTable::create(JoinType::Inner, 1, 1000, 0);
    t.add_chunk(Chunk::new(vec![Some(11), Some(12)], vec![vec![], vec![]])).unwrap();
    t.seal();
    let mut state = ProbeState::create(JoinType::Inner, false, 16);
    let mut board = MarkerBoard::create_for(&t);
    let out = probe_batch(&t, &mut state, &mut board, &vec![Some(13)]).unwrap();
    assert!(out.is_empty());
    let out2 = probe_batch(&t, &mut state, &mut board, &vec![Some(12)]).unwrap();
    assert_eq!(out2, vec![vec![pair(0, 0, 1)]]);
}

#[test]
fn empty_probe_batch_yields_nothing() {
    let out = run(JoinType::Inner, vec![]);
    assert!(out.is_empty());
}

#[test]
fn probe_key_returns_matches_in_build_order() {
    let t = scenario_table(JoinType::Inner);
    assert_eq!(t.probe_key(1), vec![ptr(0, 0), ptr(0, 2)]);
    assert_eq!(t.probe_key(2), vec![ptr(0, 1)]);
    assert_eq!(t.probe_key(3), Vec::<RowPtr>::new());
}

#[test]
fn probe_state_buffers_follow_the_join_type() {
    let left = ProbeState::create(JoinType::Left, false, 16);
    assert!(left.row_state.is_some());
    assert!(left.row_state_indexes.is_none());
    assert!(left.markers.is_none());
    let left_conjunct = ProbeState::create(JoinType::Left, true, 16);
    assert!(left_conjunct.row_state.is_some());
    assert!(left_conjunct.row_state_indexes.is_some());
    let inner = ProbeState::create(JoinType::Inner, true, 16);
    assert!(inner.row_state.is_none());
    assert!(inner.row_state_indexes.is_none());
    let semi = ProbeState::create(JoinType::Semi, false, 16);
    assert!(semi.row_state.is_none());
    assert_eq!(semi.true_validity.len(), 16);
    assert!(semi.true_validity.iter().all(|b| *b));
}

#[test]
fn clear_resets_the_validity_bitmap() {
    let t = scenario_table(JoinType::Inner);
    let mut state = ProbeState::create(JoinType::Inner, false, 16);
    let mut board = MarkerBoard::create_for(&t);
    probe_batch(&t, &mut state, &mut board, &vec![Some(1), None]).unwrap();
    assert!(state.valids.is_some());
    state.clear();
    assert!(state.valids.is_none());
}

#[test]
fn merge_boards_is_a_bitwise_or() {
    let t = scenario_table(JoinType::Right);
    let mut a = MarkerBoard::create_for(&t);
    let mut b = MarkerBoard::create_for(&t);
    a.set_matched(ptr(0, 0));
    b.set_matched(ptr(0, 2));
    b.set_matched(ptr(0, 0));
    a.merge(&b);
    assert!(a.is_matched(ptr(0, 0)));
    assert!(!a.is_matched(ptr(0, 1)));
    assert!(a.is_matched(ptr(0, 2)));
}

#[test]
fn error_descriptions_name_the_failure() {
    assert_eq!(
        JoinError::MemoryBudgetExceeded.describe(),
        "build side exceeds the configured memory budget"
    );
    assert_eq!(
        JoinError::SingleJoinAmbiguity.describe(),
        "single join matched more than one build row"
    );
}
