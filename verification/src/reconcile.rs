//! The reconciliation pass: runs once, after the probe side is fully
//! exhausted and every worker's marker board has been merged, and emits one
//! null-extended row per build row that no probe batch matched, for join
//! types that owe the unmatched build side (Right / Full).
//!
//! Reading the flags before every worker has drained is a correctness bug;
//! the caller enforces the completion barrier, merges the boards, and only
//! then calls `finalize`.

use vstd::prelude::*;

use crate::batching::chunks_of;
use crate::batching::flatten_all;
use crate::batching::lemma_chunks_reconstruct;
use crate::batching::lemma_flatten_all_push;
use crate::markers::MarkerBoard;
use crate::probe::IndexPair;
use crate::probe::views_of;
use crate::row_ptr::mk_ptr;
use crate::table::JoinHashTable;

verus! {

/// An unmatched build row emitted by reconciliation: the probe side is
/// null-extended.
pub open spec fn build_only_of(c: int, r: int) -> IndexPair {
    IndexPair { probe_row: None, build_row: Some(mk_ptr(c, r)), marker: None }
}

/// The unmatched rows of one chunk, in row order.
pub open spec fn chunk_unmatched(flags: Seq<bool>, c: int) -> Seq<IndexPair>
    decreases flags.len(),
{
    if flags.len() == 0 {
        Seq::empty()
    } else {
        let pre = chunk_unmatched(flags.drop_last(), c);
        if !flags.last() {
            pre.push(build_only_of(c, flags.len() - 1))
        } else {
            pre
        }
    }
}

pub open spec fn unmatched_upto(flags: Seq<Seq<bool>>, n: int) -> Seq<IndexPair>
    decreases n,
{
    if n <= 0 {
        Seq::empty()
    } else {
        unmatched_upto(flags, n - 1) + chunk_unmatched(flags[n - 1], n - 1)
    }
}

/// Every build row whose marker board flag stayed unmatched, in build
/// arrival order: chunk order first, then row order within each chunk.
pub open spec fn unmatched_rows(flags: Seq<Seq<bool>>) -> Seq<IndexPair> {
    unmatched_upto(flags, flags.len() as int)
}

/// Emits the leftover unmatched build rows for Right / Full joins, in build
/// chunk order, chunked at `max_block_size` rows per output batch. For every
/// other join type the reconciliation pass owes nothing and returns no
/// batches.
///
/// `board` must be the merged board: every worker's probe phase has drained.
#[verifier::loop_isolation(false)]
#[verifier::rlimit(100)]
pub fn finalize(table: &JoinHashTable, board: &MarkerBoard, max_block_size: usize) -> (out: Vec<
    Vec<IndexPair>,
>)
    requires
        table.wf(),
        table.sealed,
        board.wf_for(table.kview()),
        max_block_size >= 1,
    ensures
        table.join_type.spec_marks_build_rows() ==> views_of(out@) == chunks_of(
            unmatched_rows(board.view_flags()),
            max_block_size as int,
        ),
        !table.join_type.spec_marks_build_rows() ==> out@.len() == 0,
{
    let ghost kv = table.kview();
    let ghost flags = board.view_flags();
    let max = max_block_size;
    let mut out: Vec<Vec<IndexPair>> = Vec::new();
    if !table.join_type.marks_build_rows() {
        return out;
    }
    let ghost target = unmatched_rows(flags);
    let mut cur: Vec<IndexPair> = Vec::new();
    proof {
        assert(flatten_all(views_of(out@)) + cur@ =~= Seq::<IndexPair>::empty());
    }
    let nc = table.num_chunks();
    let mut c: usize = 0;
    while c < nc
        invariant
            c <= nc,
            nc == kv.len(),
            cur@.len() < max,
            forall|i: int|
                0 <= i < views_of(out@).len() ==> (#[trigger] views_of(out@)[i]).len() == max,
            flatten_all(views_of(out@)) + cur@ == unmatched_upto(flags, c as int),
        decreases nc - c,
    {
        let n = table.chunks[c].keys.len();
        proof {
            assert(flags[c as int].len() == kv[c as int].len());
        }
        let mut r: usize = 0;
        while r < n
            invariant
                r <= n,
                c < nc,
                n == flags[c as int].len(),
                cur@.len() < max,
                forall|i: int|
                    0 <= i < views_of(out@).len() ==> (#[trigger] views_of(out@)[i]).len() == max,
                flatten_all(views_of(out@)) + cur@ == unmatched_upto(flags, c as int)
                    + chunk_unmatched(flags[c as int].take(r as int), c as int),
            decreases n - r,
        {
            proof {
                assert(flags[c as int].take(r as int + 1).drop_last() =~= flags[c as int].take(
                    r as int,
                ));
                assert(flags[c as int].take(r as int + 1).last() == flags[c as int][r as int]);
            }
            let matched = board.is_matched(crate::row_ptr::RowPtr {
                chunk_index: c,
                row_index: r,
                marker: None,
            });
            if !matched {
                let ghost pre_cur = cur@;
                cur.push(IndexPair {
                    probe_row: None,
                    build_row: Some(crate::row_ptr::RowPtr {
                        chunk_index: c,
                        row_index: r,
                        marker: None,
                    }),
                    marker: None,
                });
                proof {
                    assert(cur@ =~= pre_cur.push(build_only_of(c as int, r as int)));
                    assert(flatten_all(views_of(out@)) + cur@ =~= (flatten_all(views_of(out@))
                        + pre_cur).push(build_only_of(c as int, r as int)));
                    assert((unmatched_upto(flags, c as int) + chunk_unmatched(
                        flags[c as int].take(r as int),
                        c as int,
                    )).push(build_only_of(c as int, r as int)) =~= unmatched_upto(flags, c as int)
                        + chunk_unmatched(flags[c as int].take(r as int + 1), c as int));
                }
                if cur.len() == max {
                    let ghost pre_views = views_of(out@);
                    let ghost fullv = cur@;
                    let full = cur;
                    cur = Vec::new();
                    out.push(full);
                    proof {
                        assert(views_of(out@) =~= pre_views.push(fullv));
                        lemma_flatten_all_push(pre_views, fullv);
                        assert(flatten_all(views_of(out@)) + cur@ =~= flatten_all(pre_views)
                            + fullv);
                    }
                }
            }
            r += 1;
        }
        proof {
            assert(flags[c as int].take(n as int) =~= flags[c as int]);
            assert(unmatched_upto(flags, c as int + 1) == unmatched_upto(flags, c as int)
                + chunk_unmatched(flags[c as int], c as int));
        }
        c += 1;
    }
    let ghost batches = views_of(out@);
    proof {
        assert(flatten_all(batches) + cur@ == target);
        lemma_chunks_reconstruct(batches, cur@, target, max as int);
    }
    if cur.len() > 0 {
        let ghost pre_views = views_of(out@);
        let ghost tailv = cur@;
        out.push(cur);
        proof {
            assert(views_of(out@) =~= pre_views.push(tailv));
        }
    }
    proof {
        assert(views_of(out@) == chunks_of(target, max as int));
    }
    out
}

} // verus!
