//! The output assembler: turns index pairs into materialized output rows by
//! gathering probe-side and build-side cells, filling a side with nulls where
//! the join null-extends it.
//!
//! Output column order is the probe columns followed by the build columns —
//! reversed for Right joins, to preserve the caller's expected schema — each
//! side led by its join-key column, with Mark joins appending one tri-state
//! column. Assembly only constructs the batch; it mutates no scratch state.

use vstd::prelude::*;

use crate::chunk::Chunk;
use crate::join_type::JoinType;
use crate::probe::IndexPair;
use crate::row_ptr::MarkerKind;
use crate::row_ptr::RowPtr;
use crate::table::JoinHashTable;

verus! {

/// The cells one side contributes to an output row: the join key, then the
/// payload cells, or `width + 1` nulls when the side is absent.
pub open spec fn probe_cells_of(probe: Chunk, pr: Option<usize>, width: int) -> Seq<Option<u64>> {
    match pr {
        Some(i) => seq![probe.keys@[i as int]] + probe.cells@[i as int]@.map_values(
            |x: u64| Some(x),
        ),
        None => Seq::new((width + 1) as nat, |j: int| None::<u64>),
    }
}

pub open spec fn build_cells_of(chunks: Seq<Chunk>, br: Option<RowPtr>, width: int) -> Seq<
    Option<u64>,
> {
    match br {
        Some(b) => seq![chunks[b.chunk_index as int].keys@[b.row_index as int]]
            + chunks[b.chunk_index as int].cells@[b.row_index as int]@.map_values(
            |x: u64| Some(x),
        ),
        None => Seq::new((width + 1) as nat, |j: int| None::<u64>),
    }
}

/// The tri-state mark rendered as a nullable boolean cell: true, false, or
/// null for unknown.
pub open spec fn mark_cell(m: Option<MarkerKind>) -> Option<u64> {
    match m {
        Some(MarkerKind::Matched) => Some(1u64),
        Some(MarkerKind::Unmatched) => Some(0u64),
        _ => None,
    }
}

/// One materialized output row for `pair`.
pub open spec fn assembled_row(
    jt: JoinType,
    chunks: Seq<Chunk>,
    probe: Chunk,
    pair: IndexPair,
    build_width: int,
    probe_width: int,
) -> Seq<Option<u64>> {
    let pc = probe_cells_of(probe, pair.probe_row, probe_width);
    let bc = build_cells_of(chunks, pair.build_row, build_width);
    let base = if jt == JoinType::Right {
        bc + pc
    } else {
        pc + bc
    };
    if jt == JoinType::Mark {
        base.push(mark_cell(pair.marker))
    } else {
        base
    }
}

/// Both sides of the pair address existing rows.
pub open spec fn pair_sides_valid(chunks: Seq<Chunk>, probe: Chunk, pair: IndexPair) -> bool {
    &&& (pair.probe_row matches Some(i) ==> (i as int) < probe.keys@.len())
    &&& (pair.build_row matches Some(b) ==> (b.chunk_index as int) < chunks.len() && (
    b.row_index as int) < chunks[b.chunk_index as int].keys@.len())
}

/// Appends the probe side's cells for `pr` to `row`.
#[verifier::loop_isolation(false)]
fn push_probe_side(row: &mut Vec<Option<u64>>, probe: &Chunk, pr: Option<usize>, probe_width: usize)
    requires
        probe.wf(probe_width as int),
        pr matches Some(i) ==> (i as int) < probe.keys@.len(),
    ensures
        final(row)@ == old(row)@ + probe_cells_of(*probe, pr, probe_width as int),
{
    let ghost target = probe_cells_of(*probe, pr, probe_width as int);
    match pr {
        Some(i) => {
            row.push(probe.keys[i]);
            let cells = &probe.cells[i];
            let mut j: usize = 0;
            proof {
                assert(row@ =~= old(row)@ + target.take(1));
            }
            while j < probe_width
                invariant
                    j <= probe_width,
                    cells@ == probe.cells@[i as int]@,
                    cells@.len() == probe_width,
                    row@ == old(row)@ + target.take(1 + j as int),
                decreases probe_width - j,
            {
                row.push(Some(cells[j]));
                proof {
                    assert(target[1 + j as int] == Some(cells@[j as int]));
                    assert(row@ =~= old(row)@ + target.take(1 + j as int + 1));
                }
                j += 1;
            }
            proof {
                assert(target.take(1 + probe_width as int) =~= target);
            }
        },
        None => {
            row.push(None);
            proof {
                assert(target[0] is None);
                assert(row@ =~= old(row)@ + target.take(1));
            }
            let mut j: usize = 0;
            while j < probe_width
                invariant
                    j <= probe_width,
                    row@ == old(row)@ + target.take(1 + j as int),
                decreases probe_width - j,
            {
                row.push(None);
                proof {
                    assert(target[1 + j as int] is None);
                    assert(row@ =~= old(row)@ + target.take(1 + j as int + 1));
                }
                j += 1;
            }
            proof {
                assert(target.take(1 + probe_width as int) =~= target);
            }
        },
    }
}

/// Appends the build side's cells for `br` to `row`, dereferencing the row
/// pointer into its chunk.
#[verifier::loop_isolation(false)]
fn push_build_side(row: &mut Vec<Option<u64>>, table: &JoinHashTable, br: Option<RowPtr>)
    requires
        table.wf(),
        br matches Some(b) ==> (b.chunk_index as int) < table.chunks@.len() && (b.row_index as int)
            < table.chunks@[b.chunk_index as int].keys@.len(),
    ensures
        final(row)@ == old(row)@ + build_cells_of(
            table.chunks@,
            br,
            table.build_width as int,
        ),
{
    let ghost target = build_cells_of(table.chunks@, br, table.build_width as int);
    let bw = table.build_width;
    match br {
        Some(b) => {
            let chunk = &table.chunks[b.chunk_index];
            row.push(chunk.keys[b.row_index]);
            let cells = &chunk.cells[b.row_index];
            let mut j: usize = 0;
            proof {
                assert(cells@.len() == bw);
                assert(row@ =~= old(row)@ + target.take(1));
            }
            while j < bw
                invariant
                    j <= bw,
                    cells@ == table.chunks@[b.chunk_index as int].cells@[b.row_index as int]@,
                    cells@.len() == bw,
                    row@ == old(row)@ + target.take(1 + j as int),
                decreases bw - j,
            {
                row.push(Some(cells[j]));
                proof {
                    assert(target[1 + j as int] == Some(cells@[j as int]));
                    assert(row@ =~= old(row)@ + target.take(1 + j as int + 1));
                }
                j += 1;
            }
            proof {
                assert(target.take(1 + bw as int) =~= target);
            }
        },
        None => {
            row.push(None);
            proof {
                assert(target[0] is None);
                assert(row@ =~= old(row)@ + target.take(1));
            }
            let mut j: usize = 0;
            while j < bw
                invariant
                    j <= bw,
                    row@ == old(row)@ + target.take(1 + j as int),
                decreases bw - j,
            {
                row.push(None);
                proof {
                    assert(target[1 + j as int] is None);
                    assert(row@ =~= old(row)@ + target.take(1 + j as int + 1));
                }
                j += 1;
            }
            proof {
                assert(target.take(1 + bw as int) =~= target);
            }
        },
    }
}

/// Gathers one output batch: probe-side columns indexed by the pairs' probe
/// rows, build-side columns by dereferencing each row pointer into its chunk,
/// and nulls of the side's width where a side has no real row. Mark joins get
/// one extra tri-state column.
#[verifier::loop_isolation(false)]
pub fn assemble(
    table: &JoinHashTable,
    probe: &Chunk,
    rows: &Vec<IndexPair>,
    probe_width: usize,
) -> (out: Vec<Vec<Option<u64>>>)
    requires
        table.wf(),
        probe.wf(probe_width as int),
        forall|i: int|
            0 <= i < rows@.len() ==> pair_sides_valid(table.chunks@, *probe, #[trigger] rows@[i]),
    ensures
        out@.len() == rows@.len(),
        forall|i: int|
            0 <= i < rows@.len() ==> (#[trigger] out@[i])@ == assembled_row(
                table.join_type,
                table.chunks@,
                *probe,
                rows@[i],
                table.build_width as int,
                probe_width as int,
            ),
{
    let jt = table.join_type;
    let n = rows.len();
    let mut out: Vec<Vec<Option<u64>>> = Vec::new();
    let mut i: usize = 0;
    while i < n
        invariant
            i <= n,
            out@.len() == i,
            forall|k: int|
                0 <= k < i ==> (#[trigger] out@[k])@ == assembled_row(
                    jt,
                    table.chunks@,
                    *probe,
                    rows@[k],
                    table.build_width as int,
                    probe_width as int,
                ),
        decreases n - i,
    {
        let pair = rows[i];
        let mut row: Vec<Option<u64>> = Vec::new();
        if jt == JoinType::Right {
            push_build_side(&mut row, table, pair.build_row);
            push_probe_side(&mut row, probe, pair.probe_row, probe_width);
        } else {
            push_probe_side(&mut row, probe, pair.probe_row, probe_width);
            push_build_side(&mut row, table, pair.build_row);
        }
        if jt == JoinType::Mark {
            let cell = match pair.marker {
                Some(MarkerKind::Matched) => Some(1u64),
                Some(MarkerKind::Unmatched) => Some(0u64),
                _ => None,
            };
            row.push(cell);
            proof {
                assert(cell == mark_cell(pair.marker));
            }
        }
        proof {
            assert(Seq::<Option<u64>>::empty() + probe_cells_of(
                *probe,
                pair.probe_row,
                probe_width as int,
            ) =~= probe_cells_of(*probe, pair.probe_row, probe_width as int));
            assert(Seq::<Option<u64>>::empty() + build_cells_of(
                table.chunks@,
                pair.build_row,
                table.build_width as int,
            ) =~= build_cells_of(table.chunks@, pair.build_row, table.build_width as int));
            assert(row@ == assembled_row(
                jt,
                table.chunks@,
                *probe,
                pair,
                table.build_width as int,
                probe_width as int,
            ));
        }
        out.push(row);
        i += 1;
    }
    out
}

} // verus!
