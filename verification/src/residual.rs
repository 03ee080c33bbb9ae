//! Applying a residual (conjunct) predicate to candidate matches.
//!
//! Key equality is only the first filter: a configured residual predicate is
//! evaluated, by the caller's evaluation context, against the materialized
//! candidate rows, yielding one verdict per candidate pair. This module does
//! the verified part of that step: pairs failing the predicate are dropped
//! from the output, the per-probe-row counters track how many matches passed
//! (a probe row left at zero must still be null-extended), and a single join
//! whose row accumulates more than one passing match is a fatal query error.

use vstd::prelude::*;

use crate::batching::chunks_of;
use crate::batching::flatten_all;
use crate::batching::lemma_chunks_reconstruct;
use crate::batching::lemma_flatten_all_push;
use crate::join_type::JoinError;
use crate::probe::IndexPair;
use crate::probe::probe_only_of;
use crate::probe::views_of;

verus! {

/// The candidate pairs that survive the residual verdicts, in order.
pub open spec fn masked_upto(pairs: Seq<IndexPair>, keep: Seq<bool>, n: int) -> Seq<IndexPair>
    decreases n,
{
    if n <= 0 {
        Seq::empty()
    } else {
        masked_upto(pairs, keep, n - 1) + (if keep[n - 1] {
            seq![pairs[n - 1]]
        } else {
            Seq::<IndexPair>::empty()
        })
    }
}

pub open spec fn masked(pairs: Seq<IndexPair>, keep: Seq<bool>) -> Seq<IndexPair> {
    masked_upto(pairs, keep, pairs.len() as int)
}

/// How many of the first `n` pairs belong to probe row `q` and passed.
pub open spec fn kept_count_upto(pairs: Seq<IndexPair>, keep: Seq<bool>, q: int, n: int) -> int
    decreases n,
{
    if n <= 0 {
        0
    } else {
        kept_count_upto(pairs, keep, q, n - 1) + (if keep[n - 1] && pairs[n - 1].probe_row
            == Some(q as usize) {
            1int
        } else {
            0int
        })
    }
}

pub open spec fn kept_count(pairs: Seq<IndexPair>, keep: Seq<bool>, q: int) -> int {
    kept_count_upto(pairs, keep, q, pairs.len() as int)
}

/// The slot-to-row map of one candidate batch: entry `i` names the probe row
/// that the pair in output slot `i` belongs to, so that the counters can be
/// updated after residual evaluation.
#[verifier::loop_isolation(false)]
pub fn row_state_index_map(pairs: &Vec<IndexPair>) -> (m: Vec<usize>)
    requires
        forall|i: int| 0 <= i < pairs@.len() ==> (#[trigger] pairs@[i]).probe_row is Some,
    ensures
        m@.len() == pairs@.len(),
        forall|i: int| 0 <= i < pairs@.len() ==> (#[trigger] pairs@[i]).probe_row == Some(m@[i]),
{
    let n = pairs.len();
    let mut m: Vec<usize> = Vec::new();
    let mut i: usize = 0;
    while i < n
        invariant
            i <= n,
            m@.len() == i,
            forall|k: int| 0 <= k < i ==> (#[trigger] pairs@[k]).probe_row == Some(m@[k]),
        decreases n - i,
    {
        let p = match pairs[i].probe_row {
            Some(p) => p,
            None => 0,
        };
        m.push(p);
        i += 1;
    }
    m
}

/// Drops the candidate pairs whose residual verdict is false and credits
/// each surviving pair to its probe row's counter, found through the
/// slot-to-row map. The dropped pairs leave the output but the bookkeeping
/// still covers every probe row: a row whose counter stays zero is
/// null-extended by the unmatched pass.
#[verifier::loop_isolation(false)]
pub fn apply_residual(
    pairs: &Vec<IndexPair>,
    keep: &Vec<bool>,
    row_state_indexes: &Vec<usize>,
    row_state: &mut Vec<usize>,
) -> (out: Vec<IndexPair>)
    requires
        keep@.len() == pairs@.len(),
        row_state_indexes@.len() == pairs@.len(),
        forall|i: int|
            0 <= i < pairs@.len() ==> (#[trigger] pairs@[i]).probe_row == Some(
                row_state_indexes@[i],
            ),
        forall|i: int|
            0 <= i < pairs@.len() ==> (#[trigger] row_state_indexes@[i] as int) < old(
                row_state,
            )@.len(),
        forall|q: int|
            0 <= q < old(row_state)@.len() ==> (#[trigger] old(row_state)@[q]) + pairs@.len()
                <= usize::MAX,
    ensures
        out@ == masked(pairs@, keep@),
        final(row_state)@.len() == old(row_state)@.len(),
        forall|q: int|
            0 <= q < old(row_state)@.len() ==> #[trigger] final(row_state)@[q] as int == old(
                row_state,
            )@[q] + kept_count(pairs@, keep@, q),
{
    let n = pairs.len();
    let rs_len = row_state.len();
    let mut out: Vec<IndexPair> = Vec::new();
    let mut i: usize = 0;
    while i < n
        invariant
            i <= n,
            out@ == masked_upto(pairs@, keep@, i as int),
            row_state@.len() == old(row_state)@.len(),
            forall|q: int|
                0 <= q < row_state@.len() ==> #[trigger] row_state@[q] as int == old(
                    row_state,
                )@[q] + kept_count_upto(pairs@, keep@, q, i as int),
        decreases n - i,
    {
        proof {
            assert forall|q: int| 0 <= q < row_state@.len() implies kept_count_upto(
                pairs@,
                keep@,
                q,
                i as int,
            ) <= i as int by {
                lemma_kept_count_bound(pairs@, keep@, q, i as int);
            }
        }
        if keep[i] {
            let pair = pairs[i];
            out.push(pair);
            let p = row_state_indexes[i];
            let counted = row_state[p];
            row_state.set(p, counted + 1);
            proof {
                assert(out@ =~= masked_upto(pairs@, keep@, i as int + 1));
                assert forall|q: int| 0 <= q < row_state@.len() implies #[trigger] row_state@[q]
                    as int == old(row_state)@[q] + kept_count_upto(
                    pairs@,
                    keep@,
                    q,
                    i as int + 1,
                ) by {
                    if q == p as int {
                        assert(pairs@[i as int].probe_row == Some(q as usize));
                    } else {
                        assert(q < rs_len as int);
                        assert(pairs@[i as int].probe_row == Some(p));
                        assert((q as usize) as int == q);
                        assert(Some(p) != Some(q as usize));
                    }
                }
            }
        } else {
            proof {
                assert(out@ =~= masked_upto(pairs@, keep@, i as int + 1));
            }
        }
        i += 1;
    }
    out
}

/// What survives the mask is exactly the pairs whose verdict was true: a
/// pair is in the filtered output precisely when it stood at some slot whose
/// residual verdict held.
pub proof fn lemma_masked_membership(pairs: Seq<IndexPair>, keep: Seq<bool>, n: int)
    requires
        0 <= n <= pairs.len(),
        keep.len() == pairs.len(),
    ensures
        forall|x: IndexPair|
            #[trigger] masked_upto(pairs, keep, n).contains(x) <==> exists|i: int|
                0 <= i < n && keep[i] && #[trigger] pairs[i] == x,
    decreases n,
{
    if n > 0 {
        lemma_masked_membership(pairs, keep, n - 1);
        let whole = masked_upto(pairs, keep, n);
        let pre = masked_upto(pairs, keep, n - 1);
        assert forall|x: IndexPair| #[trigger] whole.contains(x) implies exists|i: int|
            0 <= i < n && keep[i] && #[trigger] pairs[i] == x by {
            let j = choose|j: int| 0 <= j < whole.len() && whole[j] == x;
            if j < pre.len() {
                assert(pre[j] == x);
                assert(pre.contains(x));
            } else {
                assert(keep[n - 1] && pairs[n - 1] == x);
            }
        }
        assert forall|x: IndexPair|
            (exists|i: int| 0 <= i < n && keep[i] && #[trigger] pairs[i] == x)
            implies #[trigger] whole.contains(x) by {
            let i = choose|i: int| 0 <= i < n && keep[i] && #[trigger] pairs[i] == x;
            if i < n - 1 {
                assert(pre.contains(x));
                let j = choose|j: int| 0 <= j < pre.len() && pre[j] == x;
                assert(whole[j] == x);
            } else {
                assert(whole.last() == x);
            }
        }
    }
}

/// Two candidate sequences filtered separately give the same survivors and
/// counters as their concatenation filtered at once: applying the residual
/// batch by batch, as the yield/resume flow does, loses and duplicates
/// nothing.
pub proof fn residual_batches_compose(pa: Seq<IndexPair>, ka: Seq<bool>, pb: Seq<IndexPair>, kb: Seq<bool>)
    requires
        ka.len() == pa.len(),
        kb.len() == pb.len(),
    ensures
        masked(pa + pb, ka + kb) == masked(pa, ka) + masked(pb, kb),
        forall|q: int|
            #[trigger] kept_count(pa + pb, ka + kb, q) == kept_count(pa, ka, q) + kept_count(
                pb,
                kb,
                q,
            ),
    decreases pb.len(),
{
    if pb.len() == 0 {
        assert(pa + pb =~= pa);
        assert(ka + kb =~= ka);
        assert forall|q: int| #[trigger] kept_count(pa + pb, ka + kb, q) == kept_count(pa, ka, q)
            + kept_count(pb, kb, q) by {
            assert(kept_count(pb, kb, q) == 0);
        }
        assert(masked(pa, ka) + masked(pb, kb) =~= masked(pa, ka));
    } else {
        residual_batches_compose(pa, ka, pb.drop_last(), kb.drop_last());
        let n = pa.len() + pb.len();
        lemma_masked_upto_prefix(
            pa + pb,
            ka + kb,
            pa + pb.drop_last(),
            ka + kb.drop_last(),
            n - 1,
        );
        assert((pa + pb)[n - 1] == pb.last());
        assert((ka + kb)[n - 1] == kb.last());
        assert(masked(pa + pb, ka + kb) == masked_upto(pa + pb, ka + kb, n - 1) + (
        if kb.last() {
            seq![pb.last()]
        } else {
            Seq::<IndexPair>::empty()
        }));
        assert(masked(pb, kb) == masked_upto(pb, kb, pb.len() - 1) + (if kb.last() {
            seq![pb.last()]
        } else {
            Seq::<IndexPair>::empty()
        }));
        assert(masked(pa, ka) + masked(pb, kb) =~= (masked(pa, ka) + masked(
            pb.drop_last(),
            kb.drop_last(),
        )) + (if kb.last() {
            seq![pb.last()]
        } else {
            Seq::<IndexPair>::empty()
        })) by {
            assert(masked_upto(pb, kb, pb.len() - 1) == masked(pb.drop_last(), kb.drop_last()))
                by {
                lemma_masked_upto_prefix(
                    pb,
                    kb,
                    pb.drop_last(),
                    kb.drop_last(),
                    pb.len() - 1,
                );
            }
        }
        assert forall|q: int| #[trigger] kept_count(pa + pb, ka + kb, q) == kept_count(pa, ka, q)
            + kept_count(pb, kb, q) by {
            let tail: int = if kb.last() && pb.last().probe_row == Some(q as usize) {
                1int
            } else {
                0int
            };
            assert(kept_count(pa + pb, ka + kb, q) == kept_count_upto(pa + pb, ka + kb, q, n - 1)
                + tail);
            assert(kept_count_upto(pa + pb, ka + kb, q, n - 1) == kept_count_upto(
                pa + pb.drop_last(),
                ka + kb.drop_last(),
                q,
                n - 1,
            ));
            assert(kept_count_upto(pa + pb.drop_last(), ka + kb.drop_last(), q, n - 1)
                == kept_count(pa + pb.drop_last(), ka + kb.drop_last(), q));
            assert(kept_count(pa + pb.drop_last(), ka + kb.drop_last(), q) == kept_count(
                pa,
                ka,
                q,
            ) + kept_count(pb.drop_last(), kb.drop_last(), q));
            assert(kept_count_upto(pb, kb, q, pb.len() - 1) == kept_count(
                pb.drop_last(),
                kb.drop_last(),
                q,
            )) by {
                lemma_masked_upto_prefix(pb, kb, pb.drop_last(), kb.drop_last(), pb.len() - 1);
            }
            assert(kept_count(pb, kb, q) == kept_count_upto(pb, kb, q, pb.len() - 1) + tail);
        }
    }
}

/// Filtering reads only the first `n` slots: equal prefixes filter equally.
proof fn lemma_masked_upto_prefix(p1: Seq<IndexPair>, k1: Seq<bool>, p2: Seq<IndexPair>, k2: Seq<bool>, n: int)
    requires
        n <= p1.len(),
        n <= k1.len(),
        n <= p2.len(),
        n <= k2.len(),
        forall|i: int| 0 <= i < n ==> p1[i] == p2[i] && k1[i] == k2[i],
    ensures
        masked_upto(p1, k1, n) == masked_upto(p2, k2, n),
        forall|q: int|
            #[trigger] kept_count_upto(p1, k1, q, n) == kept_count_upto(p2, k2, q, n),
    decreases n,
{
    if n > 0 {
        lemma_masked_upto_prefix(p1, k1, p2, k2, n - 1);
        assert forall|q: int| #[trigger] kept_count_upto(p1, k1, q, n) == kept_count_upto(
            p2,
            k2,
            q,
            n,
        ) by {
            assert(kept_count_upto(p1, k1, q, n - 1) == kept_count_upto(p2, k2, q, n - 1));
        }
    } else {
        assert forall|q: int| #[trigger] kept_count_upto(p1, k1, q, n) == kept_count_upto(
            p2,
            k2,
            q,
            n,
        ) by {
            assert(kept_count_upto(p1, k1, q, n) == 0);
            assert(kept_count_upto(p2, k2, q, n) == 0);
        }
    }
}

proof fn lemma_kept_count_bound(pairs: Seq<IndexPair>, keep: Seq<bool>, q: int, n: int)
    requires
        n >= 0,
    ensures
        0 <= kept_count_upto(pairs, keep, q, n) <= n,
    decreases n,
{
    if n > 0 {
        lemma_kept_count_bound(pairs, keep, q, n - 1);
    }
}

/// The null-extended rows that the post-filter counters owe, over the first
/// `n` probe rows: one probe-only row per row whose counter stayed zero, in
/// row order.
pub open spec fn zero_rows_upto(counters: Seq<usize>, n: int) -> Seq<IndexPair>
    decreases n,
{
    if n <= 0 {
        Seq::empty()
    } else {
        zero_rows_upto(counters, n - 1) + (if counters[n - 1] == 0 {
            seq![probe_only_of(n - 1)]
        } else {
            Seq::<IndexPair>::empty()
        })
    }
}

pub open spec fn zero_count_rows(counters: Seq<usize>) -> Seq<IndexPair> {
    zero_rows_upto(counters, counters.len() as int)
}

/// The unmatched pass of the residual path: after `apply_residual` has
/// accumulated the per-row counters of passing matches over every candidate
/// batch, emits one null-extended row for each probe row whose counter
/// stayed zero — a probe row whose matches all failed the predicate is still
/// null-extended — in probe-row order, chunked at the maximum batch size.
#[verifier::loop_isolation(false)]
#[verifier::rlimit(60)]
pub fn emit_unmatched_probe_rows(row_state: &Vec<usize>, max_block_size: usize) -> (out: Vec<
    Vec<IndexPair>,
>)
    requires
        max_block_size >= 1,
    ensures
        views_of(out@) == chunks_of(zero_count_rows(row_state@), max_block_size as int),
{
    let ghost counters = row_state@;
    let ghost target = zero_count_rows(counters);
    let n = row_state.len();
    let max = max_block_size;
    let mut out: Vec<Vec<IndexPair>> = Vec::new();
    let mut cur: Vec<IndexPair> = Vec::new();
    proof {
        assert(flatten_all(views_of(out@)) + cur@ =~= Seq::<IndexPair>::empty());
    }
    let mut p: usize = 0;
    while p < n
        invariant
            p <= n,
            n == counters.len(),
            cur@.len() < max,
            forall|i: int|
                0 <= i < views_of(out@).len() ==> (#[trigger] views_of(out@)[i]).len() == max,
            flatten_all(views_of(out@)) + cur@ == zero_rows_upto(counters, p as int),
        decreases n - p,
    {
        if row_state[p] == 0 {
            let ghost pre_cur = cur@;
            cur.push(IndexPair { probe_row: Some(p), build_row: None, marker: None });
            proof {
                assert(cur@ =~= pre_cur.push(probe_only_of(p as int)));
                assert(flatten_all(views_of(out@)) + cur@ =~= (flatten_all(views_of(out@))
                    + pre_cur).push(probe_only_of(p as int)));
                assert(zero_rows_upto(counters, p as int + 1) =~= zero_rows_upto(
                    counters,
                    p as int,
                ).push(probe_only_of(p as int)));
            }
            if cur.len() == max {
                let ghost pre_views = views_of(out@);
                let ghost fullv = cur@;
                let full = cur;
                cur = Vec::new();
                out.push(full);
                proof {
                    assert(views_of(out@) =~= pre_views.push(fullv));
                    lemma_flatten_all_push(pre_views, fullv);
                    assert(flatten_all(views_of(out@)) + cur@ =~= flatten_all(pre_views) + fullv);
                }
            }
        } else {
            proof {
                assert(zero_rows_upto(counters, p as int + 1) =~= zero_rows_upto(
                    counters,
                    p as int,
                ));
            }
        }
        p += 1;
    }
    let ghost batches = views_of(out@);
    proof {
        assert(flatten_all(batches) + cur@ == target);
        lemma_chunks_reconstruct(batches, cur@, target, max as int);
    }
    if cur.len() > 0 {
        let ghost pre_views = views_of(out@);
        let ghost tailv = cur@;
        out.push(cur);
        proof {
            assert(views_of(out@) =~= pre_views.push(tailv));
        }
    }
    proof {
        assert(views_of(out@) == chunks_of(target, max as int));
    }
    out
}

/// After the residual verdicts are applied, a single join must see at most
/// one surviving match per probe row; more is the ambiguous case, surfaced
/// as a user-facing error and never resolved silently.
#[verifier::loop_isolation(false)]
pub fn check_single(row_state: &Vec<usize>) -> (res: Result<(), JoinError>)
    ensures
        res is Ok <==> forall|q: int| 0 <= q < row_state@.len() ==> #[trigger] row_state@[q] <= 1,
        res matches Err(e) ==> e == JoinError::SingleJoinAmbiguity,
{
    let n = row_state.len();
    let mut q: usize = 0;
    while q < n
        invariant
            q <= n,
            forall|i: int| 0 <= i < q ==> #[trigger] row_state@[i] <= 1,
        decreases n - q,
    {
        if row_state[q] > 1 {
            proof {
                assert(row_state@[q as int] > 1);
            }
            return Err(JoinError::SingleJoinAmbiguity);
        }
        q += 1;
    }
    Ok(())
}

} // verus!
