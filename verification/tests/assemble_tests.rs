use hash_join::assemble::assemble;
use hash_join::chunk::Chunk;
use hash_join::join_type::JoinType;
use hash_join::markers::MarkerBoard;
use hash_join::probe::probe_batch;
use hash_join::probe::IndexPair;
use hash_join::probe_state::ProbeState;
use hash_join::join_type::JoinError;
use hash_join::residual::apply_residual;
use hash_join::residual::check_single;
use hash_join::residual::emit_unmatched_probe_rows;
use hash_join::residual::row_state_index_map;
use hash_join::row_ptr::MarkerKind;
use hash_join::row_ptr::RowPtr;
use hash_join::table::JoinHashTable;

fn table_with(jt: JoinType) -> JoinHashTable {
    let mut t = JoinHashTable::create(jt, 8, 1000, 1);
    t.add_chunk(Chunk::new(
        vec![Some(1), Some(2), Some(1)],
        vec![vec![100], vec![200], vec![300]],
    ))
    .unwrap();
    t.seal();
    t
}

fn probe_chunk() -> Chunk {
    Chunk::new(vec![Some(1), Some(3)], vec![vec![10], vec![30]])
}

fn run_and_gather(jt: JoinType) -> Vec<Vec<Vec<Option<u64>>>> {
    let t = table_with(jt);
    let probe = probe_chunk();
    let mut state = ProbeState::create(jt, false, 16);
    let mut board = MarkerBoard::create_for(&t);
    let out = probe_batch(&t, &mut state, &mut board, &probe.keys).unwrap();
    out.iter().map(|batch| assemble(&t, &probe, batch, 1)).collect()
}

#[test]
fn assemble_inner_gathers_both_sides() {
    let rows = run_and_gather(JoinType::Inner);
    // probe key, probe payload, build key, build payload
    assert_eq!(
        rows,
        vec![vec![
            vec![Some(1), Some(10), Some(1), Some(100)],
            vec![Some(1), Some(10), Some(1), Some(300)],
        ]]
    );
}

#[test]
fn assemble_left_null_extends_the_build_side() {
    let rows = run_and_gather(JoinType::Left);
    assert_eq!(
        rows,
        vec![
            vec![
                vec![Some(1), Some(10), Some(1), Some(100)],
                vec![Some(1), Some(10), Some(1), Some(300)],
            ],
            vec![vec![Some(3), Some(30), None, None]],
        ]
    );
}

#[test]
fn assemble_right_reverses_the_column_order() {
    let t = table_with(JoinType::Right);
    let probe = probe_chunk();
    let mut state = ProbeState::create(JoinType::Right, false, 16);
    let mut board = MarkerBoard::create_for(&t);
    let out = probe_batch(&t, &mut state, &mut board, &probe.keys).unwrap();
    let rows = assemble(&t, &probe, &out[0], 1);
    // build key, build payload, probe key, probe payload
    assert_eq!(rows[0], vec![Some(1), Some(100), Some(1), Some(10)]);
}

#[test]
fn assemble_mark_appends_a_tristate_column() {
    let rows = run_and_gather(JoinType::Mark);
    assert_eq!(
        rows,
        vec![vec![
            vec![Some(1), Some(10), None, None, Some(1)],
            vec![Some(3), Some(30), None, None, Some(0)],
        ]]
    );
}

#[test]
fn assemble_unknown_mark_is_a_null_cell() {
    let mark = IndexPair {
        probe_row: Some(0),
        build_row: None,
        marker: Some(MarkerKind::MatchedNull),
    };
    let t = table_with(JoinType::Mark);
    let probe = probe_chunk();
    let rows = assemble(&t, &probe, &vec![mark], 1);
    assert_eq!(rows, vec![vec![Some(1), Some(10), None, None, None]]);
}

#[test]
fn assemble_finalize_rows_null_extend_the_probe_side() {
    let t = table_with(JoinType::Full);
    let probe = probe_chunk();
    let unmatched = IndexPair {
        probe_row: None,
        build_row: Some(RowPtr { chunk_index: 0, row_index: 1, marker: None }),
        marker: None,
    };
    let rows = assemble(&t, &probe, &vec![unmatched], 1);
    assert_eq!(rows, vec![vec![None, None, Some(2), Some(200)]]);
}

#[test]
fn apply_residual_filters_and_counts() {
    let pairs = vec![
        IndexPair {
            probe_row: Some(0),
            build_row: Some(RowPtr { chunk_index: 0, row_index: 0, marker: None }),
            marker: None,
        },
        IndexPair {
            probe_row: Some(0),
            build_row: Some(RowPtr { chunk_index: 0, row_index: 2, marker: None }),
            marker: None,
        },
        IndexPair {
            probe_row: Some(1),
            build_row: Some(RowPtr { chunk_index: 0, row_index: 1, marker: None }),
            marker: None,
        },
    ];
    let keep = vec![true, false, false];
    let slot_rows = row_state_index_map(&pairs);
    assert_eq!(slot_rows, vec![0, 0, 1]);
    let mut row_state = vec![0usize, 0usize];
    let out = apply_residual(&pairs, &keep, &slot_rows, &mut row_state);
    assert_eq!(out, vec![pairs[0]]);
    // Probe row 0 kept one match; probe row 1 lost its only match and must
    // still be null-extended by the unmatched pass.
    assert_eq!(row_state, vec![1, 0]);
}

#[test]
fn check_single_rejects_a_double_match() {
    assert!(check_single(&vec![1, 0, 1]).is_ok());
    assert!(check_single(&vec![1, 2]).is_err());
}

#[test]
fn conjunct_left_join_defers_null_extension() {
    // Probe row 0 has two key matches that both fail the residual; row 1 has
    // none. Both must end up null-extended, and only after the filter.
    let t = table_with(JoinType::Left);
    let mut state = ProbeState::create(JoinType::Left, true, 16);
    let mut board = MarkerBoard::create_for(&t);
    let keys = vec![Some(1), Some(3)];
    let out = probe_batch(&t, &mut state, &mut board, &keys).unwrap();
    // Deferred: candidates only, no raw-count null-extension batch.
    assert_eq!(out.len(), 1);
    assert_eq!(out[0].len(), 2);
    assert_eq!(state.row_state, Some(vec![0, 0]));
    let mut counters = vec![0usize, 0usize];
    for batch in &out {
        let keep = vec![false; batch.len()];
        let slots = row_state_index_map(batch);
        let survivors = apply_residual(batch, &keep, &slots, &mut counters);
        assert!(survivors.is_empty());
    }
    assert_eq!(counters, vec![0, 0]);
    let tail = emit_unmatched_probe_rows(&counters, 16);
    assert_eq!(tail.len(), 1);
    assert_eq!(
        tail[0],
        vec![
            IndexPair { probe_row: Some(0), build_row: None, marker: None },
            IndexPair { probe_row: Some(1), build_row: None, marker: None },
        ]
    );
}

#[test]
fn conjunct_single_join_is_judged_on_passing_matches() {
    // Two raw matches for the probe row: without a conjunct this is the
    // ambiguity error; with one, the verdicts decide.
    let t = table_with(JoinType::Single);
    let mut state = ProbeState::create(JoinType::Single, true, 16);
    let mut board = MarkerBoard::create_for(&t);
    let out = probe_batch(&t, &mut state, &mut board, &vec![Some(1)]).unwrap();
    assert_eq!(out.len(), 1);
    assert_eq!(out[0].len(), 2);
    let slots = row_state_index_map(&out[0]);

    // One passing match: no error, the survivor is the output.
    let mut counters = vec![0usize];
    let survivors = apply_residual(&out[0], &vec![true, false], &slots, &mut counters);
    assert_eq!(survivors.len(), 1);
    assert_eq!(check_single(&counters), Ok(()));
    assert!(emit_unmatched_probe_rows(&counters, 16).is_empty());

    // Both matches pass: the ambiguity is real and surfaces post-filter.
    let mut counters2 = vec![0usize];
    apply_residual(&out[0], &vec![true, true], &slots, &mut counters2);
    assert_eq!(check_single(&counters2), Err(JoinError::SingleJoinAmbiguity));
}

#[test]
fn emit_unmatched_probe_rows_chunks_at_the_maximum() {
    let counters = vec![0usize, 1, 0, 0];
    let out = emit_unmatched_probe_rows(&counters, 2);
    assert_eq!(out.len(), 2);
    assert_eq!(
        out[0],
        vec![
            IndexPair { probe_row: Some(0), build_row: None, marker: None },
            IndexPair { probe_row: Some(2), build_row: None, marker: None },
        ]
    );
    assert_eq!(out[1], vec![IndexPair { probe_row: Some(3), build_row: None, marker: None }]);
}
