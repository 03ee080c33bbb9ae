//! The join semantics, stated and proved as laws over the emission model
//! that `probe_batch` and `finalize` are contracted to produce.

use vstd::prelude::*;

use crate::batching::chunks_of;
use crate::batching::flatten_all;
use crate::batching::lemma_chunks_count;
use crate::batching::lemma_chunks_flatten;
use crate::batching::lemma_chunks_sizes;
use crate::join_type::JoinType;
use crate::probe::IndexPair;
use crate::probe::batch_rows;
use crate::probe::build_row_touched;
use crate::probe::pair_of;
use crate::probe::pair_rows;
use crate::probe::phase_a_rows;
use crate::probe::phase_a_upto;
use crate::probe::phase_b_rows;
use crate::probe::phase_b_upto;
use crate::probe::probe_only_of;
use crate::probe::row_match_list;
use crate::probe::row_matched;
use crate::probe::row_phase_a;
use crate::probe::row_phase_b;
use crate::reconcile::unmatched_rows;
use crate::residual::kept_count;
use crate::residual::kept_count_upto;
use crate::residual::masked;
use crate::residual::masked_upto;
use crate::residual::zero_count_rows;
use crate::residual::zero_rows_upto;
use crate::row_ptr::RowPtr;
use crate::row_ptr::mk_ptr;
use crate::table::key_at;
use crate::table::key_eq;
use crate::table::kv_bounded;
use crate::table::lemma_matches_contains;
use crate::table::match_ptrs;

verus! {

/// The output row that joins probe row `p` with build row `r` of chunk `c`.
pub open spec fn pair_at(p: int, c: int, r: int) -> IndexPair {
    pair_of(p, mk_ptr(c, r))
}

/// How many rows of `s` belong to probe row `p`.
pub open spec fn probe_row_count(s: Seq<IndexPair>, p: int) -> int
    decreases s.len(),
{
    if s.len() == 0 {
        0
    } else {
        probe_row_count(s.drop_last(), p) + (if s.last().probe_row == Some(p as usize) {
            1int
        } else {
            0int
        })
    }
}

proof fn lemma_probe_count_add(a: Seq<IndexPair>, b: Seq<IndexPair>, p: int)
    ensures
        probe_row_count(a + b, p) == probe_row_count(a, p) + probe_row_count(b, p),
    decreases b.len(),
{
    if b.len() == 0 {
        assert(a + b =~= a);
    } else {
        lemma_probe_count_add(a, b.drop_last(), p);
        assert((a + b).drop_last() =~= a + b.drop_last());
        assert((a + b).last() == b.last());
    }
}

proof fn lemma_pair_rows_count(p: int, ms: Seq<RowPtr>, q: int)
    requires
        0 <= p <= usize::MAX,
        0 <= q <= usize::MAX,
    ensures
        probe_row_count(pair_rows(p, ms), q) == if p == q {
            ms.len() as int
        } else {
            0
        },
    decreases ms.len(),
{
    if ms.len() == 0 {
    } else {
        lemma_pair_rows_count(p, ms.drop_last(), q);
        assert(pair_rows(p, ms).drop_last() =~= pair_rows(p, ms.drop_last()));
        assert(pair_rows(p, ms).last() == pair_of(p, ms.last()));
    }
}

/// How many matching-pass rows probe row `q` owns: its match-list length for
/// pair-emitting join types, nothing otherwise.
proof fn lemma_phase_a_count(jt: JoinType, kv: Seq<Seq<Option<u64>>>, pkeys: Seq<Option<u64>>, n: int, q: int)
    requires
        0 <= n <= pkeys.len(),
        pkeys.len() <= usize::MAX,
        0 <= q <= usize::MAX,
    ensures
        probe_row_count(phase_a_upto(jt, kv, pkeys, n), q) == if 0 <= q < n
            && jt.spec_emits_pairs() {
            row_match_list(jt, kv, pkeys[q]).len() as int
        } else {
            0
        },
    decreases n,
{
    if n > 0 {
        lemma_phase_a_count(jt, kv, pkeys, n - 1, q);
        lemma_probe_count_add(
            phase_a_upto(jt, kv, pkeys, n - 1),
            row_phase_a(jt, kv, n - 1, pkeys[n - 1]),
            q,
        );
        if jt.spec_emits_pairs() {
            lemma_pair_rows_count(n - 1, row_match_list(jt, kv, pkeys[n - 1]), q);
        }
    }
}

/// How many unmatched-pass rows probe row `q` owns: the length of its
/// per-row emission (zero or one).
proof fn lemma_phase_b_count(jt: JoinType, kv: Seq<Seq<Option<u64>>>, hn: bool, pkeys: Seq<Option<u64>>, n: int, q: int)
    requires
        0 <= n <= pkeys.len(),
        pkeys.len() <= usize::MAX,
        0 <= q <= usize::MAX,
    ensures
        probe_row_count(phase_b_upto(jt, kv, hn, pkeys, n), q) == if 0 <= q < n {
            row_phase_b(jt, kv, hn, q, pkeys[q]).len() as int
        } else {
            0
        },
    decreases n,
{
    if n > 0 {
        lemma_phase_b_count(jt, kv, hn, pkeys, n - 1, q);
        let row = row_phase_b(jt, kv, hn, n - 1, pkeys[n - 1]);
        lemma_probe_count_add(phase_b_upto(jt, kv, hn, pkeys, n - 1), row, q);
        assert(probe_row_count(row, q) == if q == n - 1 {
            row.len() as int
        } else {
            0
        }) by {
            if row.len() > 0 {
                assert(row.len() == 1);
                assert(row.drop_last() =~= Seq::<IndexPair>::empty());
                assert(probe_row_count(Seq::<IndexPair>::empty(), q) == 0);
                assert(probe_row_count(row, q) == (if row.last().probe_row == Some(q as usize) {
                    1int
                } else {
                    0int
                }));
                assert(row.last().probe_row == Some((n - 1) as usize));
                assert(((n - 1) as usize) as int == n - 1);
                assert((q as usize) as int == q);
            } else {
                assert(probe_row_count(row, q) == 0);
            }
        }
    }
}

/// Join types whose unmatched pass emits nothing.
proof fn lemma_phase_b_empty(jt: JoinType, kv: Seq<Seq<Option<u64>>>, hn: bool, pkeys: Seq<Option<u64>>, n: int)
    requires
        jt == JoinType::Inner || jt == JoinType::Right || jt == JoinType::Cross,
        n <= pkeys.len(),
    ensures
        phase_b_upto(jt, kv, hn, pkeys, n) == Seq::<IndexPair>::empty(),
    decreases n,
{
    if n > 0 {
        lemma_phase_b_empty(jt, kv, hn, pkeys, n - 1);
        assert(phase_b_upto(jt, kv, hn, pkeys, n) =~= Seq::<IndexPair>::empty());
    } else {
        assert(phase_b_upto(jt, kv, hn, pkeys, n) =~= Seq::<IndexPair>::empty());
    }
}

/// Join types whose matching pass emits nothing.
proof fn lemma_phase_a_empty(jt: JoinType, kv: Seq<Seq<Option<u64>>>, pkeys: Seq<Option<u64>>, n: int)
    requires
        !jt.spec_emits_pairs(),
        n <= pkeys.len(),
    ensures
        phase_a_upto(jt, kv, pkeys, n) == Seq::<IndexPair>::empty(),
    decreases n,
{
    if n > 0 {
        lemma_phase_a_empty(jt, kv, pkeys, n - 1);
        assert(phase_a_upto(jt, kv, pkeys, n) =~= Seq::<IndexPair>::empty());
    } else {
        assert(phase_a_upto(jt, kv, pkeys, n) =~= Seq::<IndexPair>::empty());
    }
}

/// Two pair-emitting, key-driven join types share one matching pass.
proof fn lemma_phase_a_same(jt1: JoinType, jt2: JoinType, kv: Seq<Seq<Option<u64>>>, pkeys: Seq<Option<u64>>, n: int)
    requires
        jt1.spec_emits_pairs(),
        jt2.spec_emits_pairs(),
        jt1 != JoinType::Cross,
        jt2 != JoinType::Cross,
    ensures
        phase_a_upto(jt1, kv, pkeys, n) == phase_a_upto(jt2, kv, pkeys, n),
    decreases n,
{
    if n > 0 {
        lemma_phase_a_same(jt1, jt2, kv, pkeys, n - 1);
    }
}

/// Membership in the matching pass, characterized pointwise, for key-driven
/// pair-emitting join types.
proof fn lemma_phase_a_mem(jt: JoinType, kv: Seq<Seq<Option<u64>>>, pkeys: Seq<Option<u64>>, n: int)
    requires
        jt.spec_emits_pairs(),
        jt != JoinType::Cross,
        kv_bounded(kv),
        0 <= n <= pkeys.len(),
        pkeys.len() <= usize::MAX,
    ensures
        forall|x: IndexPair|
            #[trigger] phase_a_upto(jt, kv, pkeys, n).contains(x) <==> exists|p: int, c: int, r: int|
                0 <= p < n && 0 <= c < kv.len() && 0 <= r < kv[c].len() && key_eq(
                    kv[c][r],
                    pkeys[p],
                ) && x == #[trigger] pair_at(p, c, r),
    decreases n,
{
    if n > 0 {
        lemma_phase_a_mem(jt, kv, pkeys, n - 1);
        let whole = phase_a_upto(jt, kv, pkeys, n);
        let pre = phase_a_upto(jt, kv, pkeys, n - 1);
        let ms = row_match_list(jt, kv, pkeys[n - 1]);
        let row = row_phase_a(jt, kv, n - 1, pkeys[n - 1]);
        assert(row == pair_rows(n - 1, ms));
        if pkeys[n - 1] is Some {
            lemma_matches_contains(kv, kv.len() as int, pkeys[n - 1].unwrap());
        }
        assert forall|x: IndexPair| #[trigger] whole.contains(x) implies exists|p: int, c: int, r: int|
            0 <= p < n && 0 <= c < kv.len() && 0 <= r < kv[c].len() && key_eq(
                kv[c][r],
                pkeys[p],
            ) && x == #[trigger] pair_at(p, c, r) by {
            let i = choose|i: int| 0 <= i < whole.len() && whole[i] == x;
            if i < pre.len() {
                assert(pre[i] == x);
                assert(pre.contains(x));
            } else {
                let j = i - pre.len();
                assert(row[j] == x);
                assert(x == pair_of(n - 1, ms[j]));
                assert(ms.contains(ms[j]));
                let b = ms[j];
                assert(pkeys[n - 1] is Some);
                assert(key_eq(key_at(kv, b), pkeys[n - 1]));
                assert(b == mk_ptr(b.chunk_index as int, b.row_index as int));
                assert(x == pair_at(n - 1, b.chunk_index as int, b.row_index as int));
            }
        }
        assert forall|x: IndexPair|
            (exists|p: int, c: int, r: int|
                0 <= p < n && 0 <= c < kv.len() && 0 <= r < kv[c].len() && key_eq(
                    kv[c][r],
                    pkeys[p],
                ) && x == #[trigger] pair_at(p, c, r)) implies #[trigger] whole.contains(x) by {
            let (p, c, r) = choose|p: int, c: int, r: int|
                0 <= p < n && 0 <= c < kv.len() && 0 <= r < kv[c].len() && key_eq(
                    kv[c][r],
                    pkeys[p],
                ) && x == #[trigger] pair_at(p, c, r);
            if p < n - 1 {
                assert(pre.contains(x));
                let i = choose|i: int| 0 <= i < pre.len() && pre[i] == x;
                assert(whole[i] == x);
            } else {
                assert(p == n - 1);
                assert(pkeys[p] is Some);
                let b = mk_ptr(c, r);
                assert(key_eq(key_at(kv, b), Some(pkeys[p].unwrap())));
                assert(ms.contains(b));
                let j = choose|j: int| 0 <= j < ms.len() && ms[j] == b;
                assert(row[j] == pair_of(n - 1, b));
                assert(whole[pre.len() + j] == x);
            }
        }
    }
}

/// Membership of a probe-only row in the unmatched pass: it is there exactly
/// when that probe row's per-row emission is that one row.
proof fn lemma_phase_b_only(jt: JoinType, kv: Seq<Seq<Option<u64>>>, hn: bool, pkeys: Seq<Option<u64>>, n: int, q: int)
    requires
        0 <= n <= pkeys.len(),
        pkeys.len() <= usize::MAX,
        0 <= q <= usize::MAX,
    ensures
        phase_b_upto(jt, kv, hn, pkeys, n).contains(probe_only_of(q)) <==> (0 <= q < n
            && row_phase_b(jt, kv, hn, q, pkeys[q]) == seq![probe_only_of(q)]),
    decreases n,
{
    if n > 0 {
        lemma_phase_b_only(jt, kv, hn, pkeys, n - 1, q);
        let whole = phase_b_upto(jt, kv, hn, pkeys, n);
        let pre = phase_b_upto(jt, kv, hn, pkeys, n - 1);
        let row = row_phase_b(jt, kv, hn, n - 1, pkeys[n - 1]);
        if whole.contains(probe_only_of(q)) {
            let i = choose|i: int| 0 <= i < whole.len() && whole[i] == probe_only_of(q);
            if i < pre.len() {
                assert(pre[i] == probe_only_of(q));
                assert(pre.contains(probe_only_of(q)));
            } else {
                assert(row[i - pre.len()] == probe_only_of(q));
                assert(q == n - 1);
                assert(row =~= seq![probe_only_of(q)]);
            }
        }
        if 0 <= q < n && row_phase_b(jt, kv, hn, q, pkeys[q]) == seq![probe_only_of(q)] {
            if q < n - 1 {
                assert(pre.contains(probe_only_of(q)));
                let i = choose|i: int| 0 <= i < pre.len() && pre[i] == probe_only_of(q);
                assert(whole[i] == probe_only_of(q));
                assert(whole.contains(probe_only_of(q)));
            } else {
                assert(whole[pre.len() as int] == probe_only_of(q));
                assert(whole.contains(probe_only_of(q)));
            }
        }
    }
}

/// Inner-join completeness: the matching output holds the pair of probe row
/// `p` and build row `(c, r)` exactly when their keys are equal and non-null,
/// and it holds nothing else. The residual-predicate step, when configured,
/// filters exactly by its verdicts (`apply_residual`).
pub proof fn inner_join_completeness(kv: Seq<Seq<Option<u64>>>, hn: bool, pkeys: Seq<Option<u64>>)
    requires
        kv_bounded(kv),
        pkeys.len() <= usize::MAX,
    ensures
        forall|p: int, c: int, r: int|
            0 <= p < pkeys.len() && 0 <= c < kv.len() && 0 <= r < kv[c].len()
                ==> (#[trigger] batch_rows(JoinType::Inner, kv, hn, pkeys).contains(
                pair_at(p, c, r),
            ) <==> key_eq(kv[c][r], pkeys[p])),
        forall|x: IndexPair|
            #[trigger] batch_rows(JoinType::Inner, kv, hn, pkeys).contains(x)
                ==> exists|p: int, c: int, r: int|
                0 <= p < pkeys.len() && 0 <= c < kv.len() && 0 <= r < kv[c].len() && key_eq(
                    kv[c][r],
                    pkeys[p],
                ) && x == #[trigger] pair_at(p, c, r),
{
    let n = pkeys.len() as int;
    lemma_phase_b_empty(JoinType::Inner, kv, hn, pkeys, n);
    assert(batch_rows(JoinType::Inner, kv, hn, pkeys) =~= phase_a_upto(
        JoinType::Inner,
        kv,
        pkeys,
        n,
    ));
    lemma_phase_a_mem(JoinType::Inner, kv, pkeys, n);
    assert forall|p: int, c: int, r: int|
        0 <= p < pkeys.len() && 0 <= c < kv.len() && 0 <= r < kv[c].len() && key_eq(
            kv[c][r],
            pkeys[p],
        ) implies #[trigger] batch_rows(JoinType::Inner, kv, hn, pkeys).contains(
        pair_at(p, c, r),
    ) by {
        assert(0 <= p < n && 0 <= c < kv.len() && 0 <= r < kv[c].len() && key_eq(
            kv[c][r],
            pkeys[p],
        ) && pair_at(p, c, r) == pair_at(p, c, r));
    }
    assert forall|p: int, c: int, r: int|
        0 <= p < pkeys.len() && 0 <= c < kv.len() && 0 <= r < kv[c].len() && #[trigger] batch_rows(
            JoinType::Inner,
            kv,
            hn,
            pkeys,
        ).contains(pair_at(p, c, r)) implies key_eq(kv[c][r], pkeys[p]) by {
        let (p2, c2, r2) = choose|p2: int, c2: int, r2: int|
            0 <= p2 < pkeys.len() && 0 <= c2 < kv.len() && 0 <= r2 < kv[c2].len() && key_eq(
                kv[c2][r2],
                pkeys[p2],
            ) && pair_at(p, c, r) == #[trigger] pair_at(p2, c2, r2);
        assert(p2 == p && c2 == c && r2 == r);
    }
}

/// Left-join total coverage: every probe row appears in the output, matched
/// rows exactly as often as they have matches, unmatched rows exactly once as
/// a null-extended row — and never both.
pub proof fn left_join_total_coverage(kv: Seq<Seq<Option<u64>>>, hn: bool, pkeys: Seq<Option<u64>>)
    requires
        kv_bounded(kv),
        pkeys.len() <= usize::MAX,
    ensures
        forall|p: int|
            0 <= p < pkeys.len() ==> probe_row_count(batch_rows(JoinType::Left, kv, hn, pkeys), p)
                == (if row_matched(kv, #[trigger] pkeys[p]) {
                match_ptrs(kv, pkeys[p].unwrap()).len() as int
            } else {
                1
            }),
        forall|p: int|
            0 <= p < pkeys.len() ==> (#[trigger] batch_rows(JoinType::Left, kv, hn, pkeys).contains(
                probe_only_of(p),
            ) <==> !row_matched(kv, pkeys[p])),
{
    let n = pkeys.len() as int;
    let jt = JoinType::Left;
    assert forall|p: int| 0 <= p < pkeys.len() implies probe_row_count(
        batch_rows(jt, kv, hn, pkeys),
        p,
    ) == (if row_matched(kv, #[trigger] pkeys[p]) {
        match_ptrs(kv, pkeys[p].unwrap()).len() as int
    } else {
        1
    }) by {
        lemma_probe_count_add(phase_a_rows(jt, kv, pkeys), phase_b_rows(jt, kv, hn, pkeys), p);
        lemma_phase_a_count(jt, kv, pkeys, n, p);
        lemma_phase_b_count(jt, kv, hn, pkeys, n, p);
    }
    assert forall|p: int| 0 <= p < pkeys.len() implies (#[trigger] batch_rows(
        jt,
        kv,
        hn,
        pkeys,
    ).contains(probe_only_of(p)) <==> !row_matched(kv, pkeys[p])) by {
        lemma_phase_b_only(jt, kv, hn, pkeys, n, p);
        lemma_phase_a_mem(jt, kv, pkeys, n);
        assert(!phase_a_upto(jt, kv, pkeys, n).contains(probe_only_of(p))) by {
            if phase_a_upto(jt, kv, pkeys, n).contains(probe_only_of(p)) {
                let (p2, c2, r2) = choose|p2: int, c2: int, r2: int|
                    0 <= p2 < n && 0 <= c2 < kv.len() && 0 <= r2 < kv[c2].len() && key_eq(
                        kv[c2][r2],
                        pkeys[p2],
                    ) && probe_only_of(p) == #[trigger] pair_at(p2, c2, r2);
                assert(false);
            }
        }
        assert forall|x: IndexPair|
            batch_rows(jt, kv, hn, pkeys).contains(x) implies (phase_a_upto(
            jt,
            kv,
            pkeys,
            n,
        ).contains(x) || phase_b_upto(jt, kv, hn, pkeys, n).contains(x)) by {
            let i = choose|i: int|
                0 <= i < batch_rows(jt, kv, hn, pkeys).len() && batch_rows(jt, kv, hn, pkeys)[i]
                    == x;
            if i < phase_a_rows(jt, kv, pkeys).len() {
                assert(phase_a_rows(jt, kv, pkeys)[i] == x);
            } else {
                assert(phase_b_rows(jt, kv, hn, pkeys)[i - phase_a_rows(jt, kv, pkeys).len()]
                    == x);
            }
        }
        if phase_b_upto(jt, kv, hn, pkeys, n).contains(probe_only_of(p)) {
            let i = choose|i: int|
                0 <= i < phase_b_upto(jt, kv, hn, pkeys, n).len() && phase_b_upto(
                    jt,
                    kv,
                    hn,
                    pkeys,
                    n,
                )[i] == probe_only_of(p);
            assert(batch_rows(jt, kv, hn, pkeys)[phase_a_rows(jt, kv, pkeys).len() + i]
                == probe_only_of(p));
            assert(batch_rows(jt, kv, hn, pkeys).contains(probe_only_of(p)));
        }
        if !row_matched(kv, pkeys[p]) {
            assert(row_match_list(jt, kv, pkeys[p]).len() == 0) by {
                if pkeys[p] is Some {
                    assert(match_ptrs(kv, pkeys[p].unwrap()).len() == 0);
                }
            }
            assert(row_phase_b(jt, kv, hn, p, pkeys[p]) == seq![probe_only_of(p)]);
        }
        if row_matched(kv, pkeys[p]) {
            assert(row_phase_b(jt, kv, hn, p, pkeys[p]) =~= Seq::<IndexPair>::empty());
        }
    }
}

/// What survives the residual mask owns exactly its kept-pair counts.
proof fn lemma_masked_count(pairs: Seq<IndexPair>, keep: Seq<bool>, n: int, q: int)
    requires
        0 <= n <= pairs.len(),
        keep.len() == pairs.len(),
    ensures
        probe_row_count(masked_upto(pairs, keep, n), q) == kept_count_upto(pairs, keep, q, n),
    decreases n,
{
    if n > 0 {
        lemma_masked_count(pairs, keep, n - 1, q);
        let row: Seq<IndexPair> = if keep[n - 1] {
            seq![pairs[n - 1]]
        } else {
            Seq::<IndexPair>::empty()
        };
        lemma_probe_count_add(masked_upto(pairs, keep, n - 1), row, q);
        if keep[n - 1] {
            assert(row.drop_last() =~= Seq::<IndexPair>::empty());
            assert(probe_row_count(Seq::<IndexPair>::empty(), q) == 0);
        }
    }
}

/// Each zero-counter probe row owns exactly one null-extended row.
proof fn lemma_zero_rows_count(counters: Seq<usize>, n: int, q: int)
    requires
        0 <= n <= counters.len(),
        counters.len() <= usize::MAX,
        0 <= q <= usize::MAX,
    ensures
        probe_row_count(zero_rows_upto(counters, n), q) == if 0 <= q < n && counters[q] == 0 {
            1int
        } else {
            0
        },
    decreases n,
{
    if n > 0 {
        lemma_zero_rows_count(counters, n - 1, q);
        let row: Seq<IndexPair> = if counters[n - 1] == 0 {
            seq![probe_only_of(n - 1)]
        } else {
            Seq::<IndexPair>::empty()
        };
        lemma_probe_count_add(zero_rows_upto(counters, n - 1), row, q);
        if counters[n - 1] == 0 {
            assert(row.drop_last() =~= Seq::<IndexPair>::empty());
            assert(probe_row_count(Seq::<IndexPair>::empty(), q) == 0);
            assert(((n - 1) as usize) as int == n - 1);
            assert((q as usize) as int == q);
        }
    }
}

/// A null-extended row stands among the zero-counter rows exactly when its
/// probe row's counter is zero.
proof fn lemma_zero_rows_only(counters: Seq<usize>, n: int, q: int)
    requires
        0 <= n <= counters.len(),
        counters.len() <= usize::MAX,
        0 <= q <= usize::MAX,
    ensures
        zero_rows_upto(counters, n).contains(probe_only_of(q)) <==> (0 <= q < n && counters[q]
            == 0),
    decreases n,
{
    if n > 0 {
        lemma_zero_rows_only(counters, n - 1, q);
        let whole = zero_rows_upto(counters, n);
        let pre = zero_rows_upto(counters, n - 1);
        if whole.contains(probe_only_of(q)) {
            let i = choose|i: int| 0 <= i < whole.len() && whole[i] == probe_only_of(q);
            if i < pre.len() {
                assert(pre[i] == probe_only_of(q));
                assert(pre.contains(probe_only_of(q)));
            } else {
                assert(whole[i] == probe_only_of(n - 1));
                assert(((n - 1) as usize) as int == n - 1);
                assert((q as usize) as int == q);
            }
        }
        if 0 <= q < n && counters[q] == 0 {
            if q < n - 1 {
                assert(pre.contains(probe_only_of(q)));
                let i = choose|i: int| 0 <= i < pre.len() && pre[i] == probe_only_of(q);
                assert(whole[i] == probe_only_of(q));
                assert(whole.contains(probe_only_of(q)));
            } else {
                assert(whole[pre.len() as int] == probe_only_of(q));
                assert(whole.contains(probe_only_of(q)));
            }
        }
    }
}

/// Left-join total coverage under a residual predicate: with the counters
/// that `apply_residual` accumulates over the candidate pairs, the surviving
/// pairs together with the zero-counter null-extensions cover every probe
/// row — once per passing match, otherwise exactly once null-extended, and
/// never both. This is the residual-path counterpart of
/// `left_join_total_coverage`: a probe row whose matches all fail the
/// predicate is still null-extended, exactly once.
pub proof fn left_coverage_with_residual(kv: Seq<Seq<Option<u64>>>, pkeys: Seq<Option<u64>>, keep: Seq<bool>, counters: Seq<usize>)
    requires
        kv_bounded(kv),
        pkeys.len() <= usize::MAX,
        keep.len() == phase_a_rows(JoinType::Left, kv, pkeys).len(),
        counters.len() == pkeys.len(),
        forall|q: int|
            0 <= q < counters.len() ==> #[trigger] counters[q] as int == kept_count(
                phase_a_rows(JoinType::Left, kv, pkeys),
                keep,
                q,
            ),
    ensures
        forall|p: int|
            0 <= p < pkeys.len() ==> probe_row_count(
                masked(phase_a_rows(JoinType::Left, kv, pkeys), keep) + zero_count_rows(counters),
                p,
            ) == (if kept_count(phase_a_rows(JoinType::Left, kv, pkeys), keep, p) > 0 {
                kept_count(phase_a_rows(JoinType::Left, kv, pkeys), keep, p)
            } else {
                1
            }),
        forall|p: int|
            0 <= p < pkeys.len() ==> ((masked(phase_a_rows(JoinType::Left, kv, pkeys), keep)
                + zero_count_rows(counters)).contains(probe_only_of(p)) <==> kept_count(
                phase_a_rows(JoinType::Left, kv, pkeys),
                keep,
                p,
            ) == 0),
{
    let n = pkeys.len() as int;
    let pairs = phase_a_rows(JoinType::Left, kv, pkeys);
    let kept = masked(pairs, keep);
    let zeros = zero_count_rows(counters);
    crate::residual::lemma_masked_membership(pairs, keep, pairs.len() as int);
    lemma_phase_a_mem(JoinType::Left, kv, pkeys, n);
    assert forall|p: int| 0 <= p < pkeys.len() implies probe_row_count(kept + zeros, p) == (
    if kept_count(pairs, keep, p) > 0 {
        kept_count(pairs, keep, p)
    } else {
        1
    }) by {
        lemma_probe_count_add(kept, zeros, p);
        lemma_masked_count(pairs, keep, pairs.len() as int, p);
        lemma_zero_rows_count(counters, counters.len() as int, p);
    }
    assert forall|p: int| 0 <= p < pkeys.len() implies ((kept + zeros).contains(probe_only_of(p))
        <==> kept_count(pairs, keep, p) == 0) by {
        lemma_zero_rows_only(counters, counters.len() as int, p);
        // No surviving pair is a null-extended row: every candidate has a
        // real build side.
        assert(!kept.contains(probe_only_of(p))) by {
            if kept.contains(probe_only_of(p)) {
                let i = choose|i: int| 0 <= i < pairs.len() && keep[i] && #[trigger] pairs[i]
                    == probe_only_of(p);
                assert(pairs.contains(pairs[i]));
                let (p2, c2, r2) = choose|p2: int, c2: int, r2: int|
                    0 <= p2 < n && 0 <= c2 < kv.len() && 0 <= r2 < kv[c2].len() && key_eq(
                        kv[c2][r2],
                        pkeys[p2],
                    ) && pairs[i] == #[trigger] pair_at(p2, c2, r2);
                assert(false);
            }
        }
        if (kept + zeros).contains(probe_only_of(p)) {
            let i = choose|i: int|
                0 <= i < (kept + zeros).len() && (kept + zeros)[i] == probe_only_of(p);
            if i < kept.len() {
                assert(kept[i] == probe_only_of(p));
                assert(kept.contains(probe_only_of(p)));
            } else {
                assert(zeros[i - kept.len()] == probe_only_of(p));
                assert(zeros.contains(probe_only_of(p)));
            }
        }
        if zeros.contains(probe_only_of(p)) {
            let i = choose|i: int| 0 <= i < zeros.len() && zeros[i] == probe_only_of(p);
            assert((kept + zeros)[kept.len() + i] == probe_only_of(p));
            assert((kept + zeros).contains(probe_only_of(p)));
        }
    }
}

/// The matched flags one probe batch leaves on a fresh marker board.
pub open spec fn batch_matched_flags(kv: Seq<Seq<Option<u64>>>, pkeys: Seq<Option<u64>>) -> Seq<
    Seq<bool>,
> {
    Seq::new(kv.len(), |c: int| Seq::new(kv[c].len(), |r: int| build_row_touched(kv, pkeys, c, r)))
}

/// A fresh marker board probed once holds exactly the batch's matched
/// flags: what `probe_batch` guarantees pointwise determines the whole
/// board.
pub proof fn fresh_board_flags(flags: Seq<Seq<bool>>, kv: Seq<Seq<Option<u64>>>, pkeys: Seq<Option<u64>>)
    requires
        flags.len() == kv.len(),
        forall|c: int| 0 <= c < kv.len() ==> (#[trigger] flags[c]).len() == kv[c].len(),
        forall|c: int, r: int|
            0 <= c < kv.len() && 0 <= r < kv[c].len() ==> #[trigger] flags[c][r]
                == build_row_touched(kv, pkeys, c, r),
    ensures
        flags == batch_matched_flags(kv, pkeys),
{
    assert(flags =~~= batch_matched_flags(kv, pkeys));
}

/// Full-outer symmetry: counted as multisets, the full-outer output together
/// with one extra copy of the inner matches is exactly the left-outer output
/// together with the right-outer output — the full output is their union with
/// the inner matches counted once.
pub proof fn full_outer_symmetry(kv: Seq<Seq<Option<u64>>>, hn: bool, pkeys: Seq<Option<u64>>)
    requires
        kv_bounded(kv),
        pkeys.len() <= usize::MAX,
    ensures
        (batch_rows(JoinType::Full, kv, hn, pkeys) + unmatched_rows(
            batch_matched_flags(kv, pkeys),
        )).to_multiset().add(batch_rows(JoinType::Inner, kv, hn, pkeys).to_multiset()) == (
        batch_rows(JoinType::Left, kv, hn, pkeys)).to_multiset().add(
            (batch_rows(JoinType::Right, kv, hn, pkeys) + unmatched_rows(
                batch_matched_flags(kv, pkeys),
            )).to_multiset(),
        ),
{
    broadcast use vstd::multiset::group_multiset_axioms;

    let n = pkeys.len() as int;
    let a = phase_a_rows(JoinType::Full, kv, pkeys);
    let bl = phase_b_rows(JoinType::Full, kv, hn, pkeys);
    let u = unmatched_rows(batch_matched_flags(kv, pkeys));
    // All four matching passes agree.
    lemma_phase_a_same(JoinType::Full, JoinType::Left, kv, pkeys, n);
    lemma_phase_a_same(JoinType::Full, JoinType::Right, kv, pkeys, n);
    lemma_phase_a_same(JoinType::Full, JoinType::Inner, kv, pkeys, n);
    // Left and Full owe the same unmatched probe rows; Inner and Right owe none.
    lemma_phase_b_same_left_full(kv, hn, pkeys, n);
    lemma_phase_b_empty(JoinType::Inner, kv, hn, pkeys, n);
    lemma_phase_b_empty(JoinType::Right, kv, hn, pkeys, n);
    let full_total = batch_rows(JoinType::Full, kv, hn, pkeys) + u;
    let left_total = batch_rows(JoinType::Left, kv, hn, pkeys);
    let right_total = batch_rows(JoinType::Right, kv, hn, pkeys) + u;
    let inner_total = batch_rows(JoinType::Inner, kv, hn, pkeys);
    assert(full_total =~= (a + bl) + u);
    assert(left_total =~= a + bl);
    assert(right_total =~= (a + Seq::<IndexPair>::empty()) + u);
    assert(a + Seq::<IndexPair>::empty() =~= a);
    assert(inner_total =~= a + Seq::<IndexPair>::empty());
    vstd::seq_lib::lemma_multiset_commutative(a + bl, u);
    vstd::seq_lib::lemma_multiset_commutative(a, bl);
    vstd::seq_lib::lemma_multiset_commutative(a, u);
    assert(full_total.to_multiset().add(inner_total.to_multiset()) =~= left_total.to_multiset().add(
        right_total.to_multiset(),
    ));
}

proof fn lemma_phase_b_same_left_full(kv: Seq<Seq<Option<u64>>>, hn: bool, pkeys: Seq<Option<u64>>, n: int)
    ensures
        phase_b_upto(JoinType::Full, kv, hn, pkeys, n) == phase_b_upto(
            JoinType::Left,
            kv,
            hn,
            pkeys,
            n,
        ),
    decreases n,
{
    if n > 0 {
        lemma_phase_b_same_left_full(kv, hn, pkeys, n - 1);
    }
}

/// Semi idempotence: a probe row with at least one build match appears
/// exactly once in the semi-join output, never once per match.
pub proof fn semi_idempotence(kv: Seq<Seq<Option<u64>>>, hn: bool, pkeys: Seq<Option<u64>>, p: int)
    requires
        pkeys.len() <= usize::MAX,
        0 <= p < pkeys.len(),
        row_matched(kv, pkeys[p]),
    ensures
        probe_row_count(batch_rows(JoinType::Semi, kv, hn, pkeys), p) == 1,
{
    let n = pkeys.len() as int;
    let jt = JoinType::Semi;
    lemma_probe_count_add(phase_a_rows(jt, kv, pkeys), phase_b_rows(jt, kv, hn, pkeys), p);
    lemma_phase_a_count(jt, kv, pkeys, n, p);
    lemma_phase_b_count(jt, kv, hn, pkeys, n, p);
}

/// Anti exclusivity: every anti-join output row belongs to a probe row with
/// zero matches in the build side — no build row holds an equal key.
pub proof fn anti_exclusivity(kv: Seq<Seq<Option<u64>>>, hn: bool, pkeys: Seq<Option<u64>>)
    requires
        kv_bounded(kv),
        pkeys.len() <= usize::MAX,
    ensures
        forall|i: int|
            0 <= i < batch_rows(JoinType::Anti, kv, hn, pkeys).len()
                ==> ((#[trigger] batch_rows(JoinType::Anti, kv, hn, pkeys)[i]).probe_row matches Some(pu)
                && !row_matched(kv, pkeys[pu as int]) && 0 <= (pu as int) < pkeys.len()),
        forall|i: int, c: int, r: int|
            0 <= i < batch_rows(JoinType::Anti, kv, hn, pkeys).len() && 0 <= c < kv.len() && 0 <= r
                < kv[c].len() ==> !key_eq(
                #[trigger] kv[c][r],
                probe_key_of(pkeys, #[trigger] batch_rows(JoinType::Anti, kv, hn, pkeys)[i]),
            ),
{
    let n = pkeys.len() as int;
    let jt = JoinType::Anti;
    lemma_phase_a_empty(jt, kv, pkeys, n);
    assert(batch_rows(jt, kv, hn, pkeys) =~= phase_b_upto(jt, kv, hn, pkeys, n));
    lemma_anti_elements(kv, hn, pkeys, n);
    assert forall|i: int, c: int, r: int|
        0 <= i < batch_rows(jt, kv, hn, pkeys).len() && 0 <= c < kv.len() && 0 <= r
            < kv[c].len() implies !key_eq(
        #[trigger] kv[c][r],
        probe_key_of(pkeys, #[trigger] batch_rows(jt, kv, hn, pkeys)[i]),
    ) by {
        let x = batch_rows(jt, kv, hn, pkeys)[i];
        let pu = x.probe_row.unwrap();
        if key_eq(kv[c][r], pkeys[pu as int]) {
            lemma_matches_contains(kv, kv.len() as int, pkeys[pu as int].unwrap());
            assert(match_ptrs(kv, pkeys[pu as int].unwrap()).contains(mk_ptr(c, r)));
            assert(row_matched(kv, pkeys[pu as int]));
        }
    }
}

/// The probe key a row was emitted for; null for reconciliation rows.
pub open spec fn probe_key_of(pkeys: Seq<Option<u64>>, x: IndexPair) -> Option<u64> {
    match x.probe_row {
        Some(p) => pkeys[p as int],
        None => None,
    }
}

proof fn lemma_anti_elements(kv: Seq<Seq<Option<u64>>>, hn: bool, pkeys: Seq<Option<u64>>, n: int)
    requires
        0 <= n <= pkeys.len(),
        pkeys.len() <= usize::MAX,
    ensures
        forall|i: int|
            0 <= i < phase_b_upto(JoinType::Anti, kv, hn, pkeys, n).len() ==> {
                let x = #[trigger] phase_b_upto(JoinType::Anti, kv, hn, pkeys, n)[i];
                &&& x.probe_row matches Some(pu)
                &&& (pu as int) < n
                &&& !row_matched(kv, pkeys[pu as int])
            },
    decreases n,
{
    if n > 0 {
        lemma_anti_elements(kv, hn, pkeys, n - 1);
        let whole = phase_b_upto(JoinType::Anti, kv, hn, pkeys, n);
        let pre = phase_b_upto(JoinType::Anti, kv, hn, pkeys, n - 1);
        let row = row_phase_b(JoinType::Anti, kv, hn, n - 1, pkeys[n - 1]);
        assert forall|i: int| 0 <= i < whole.len() implies {
            let x = #[trigger] whole[i];
            &&& x.probe_row matches Some(pu)
            &&& (pu as int) < n
            &&& !row_matched(kv, pkeys[pu as int])
        } by {
            if i < pre.len() {
                assert(whole[i] == pre[i]);
            } else {
                assert(whole[i] == row[i - pre.len()]);
                assert(row[i - pre.len()] == probe_only_of(n - 1));
            }
        }
    }
}

/// Batch-size boundary: a matching pass of `M` rows yields `ceil(M / max)`
/// output batches; each is non-empty, at most `max` rows, full except
/// possibly the last; and laid end to end they restore the emission exactly —
/// nothing dropped, nothing duplicated, order kept.
pub proof fn batch_size_boundary(jt: JoinType, kv: Seq<Seq<Option<u64>>>, pkeys: Seq<Option<u64>>, max: int)
    requires
        max >= 1,
    ensures
        chunks_of(phase_a_rows(jt, kv, pkeys), max).len() == (phase_a_rows(jt, kv, pkeys).len()
            + max - 1) / max,
        flatten_all(chunks_of(phase_a_rows(jt, kv, pkeys), max)) == phase_a_rows(jt, kv, pkeys),
        forall|i: int|
            0 <= i < chunks_of(phase_a_rows(jt, kv, pkeys), max).len() ==> {
                &&& 1 <= (#[trigger] chunks_of(phase_a_rows(jt, kv, pkeys), max)[i]).len() <= max
                &&& (i < chunks_of(phase_a_rows(jt, kv, pkeys), max).len() - 1 ==> chunks_of(
                    phase_a_rows(jt, kv, pkeys),
                    max,
                )[i].len() == max)
            },
{
    lemma_chunks_count(phase_a_rows(jt, kv, pkeys), max);
    lemma_chunks_flatten(phase_a_rows(jt, kv, pkeys), max);
    lemma_chunks_sizes(phase_a_rows(jt, kv, pkeys), max);
}

} // verus!
