//! Splitting a stream of output rows into batches of a configured maximum
//! size.
//!
//! Capacity overflow within a probe batch is not an error: when the scratch
//! buffers fill mid-scan, the filled buffers are yielded for assembly and the
//! scan resumes where it stopped. This module defines what that yields: the
//! chunking of the full row stream, nothing dropped, nothing duplicated.

use vstd::prelude::*;

verus! {

/// The batches that a row stream of `s` yields under maximum batch size `n`:
/// full batches of exactly `n` rows, then one final batch with the rest.
pub open spec fn chunks_of<A>(s: Seq<A>, n: int) -> Seq<Seq<A>>
    decreases s.len(),
        when n >= 1
{
    if s.len() == 0 {
        Seq::empty()
    } else if s.len() <= n {
        seq![s]
    } else {
        seq![s.take(n)] + chunks_of(s.skip(n), n)
    }
}

/// All batches laid end to end.
pub open spec fn flatten_all<A>(bs: Seq<Seq<A>>) -> Seq<A>
    decreases bs.len(),
{
    if bs.len() == 0 {
        Seq::empty()
    } else {
        bs.first() + flatten_all(bs.drop_first())
    }
}

pub proof fn lemma_flatten_all_push<A>(bs: Seq<Seq<A>>, b: Seq<A>)
    ensures
        flatten_all(bs.push(b)) == flatten_all(bs) + b,
    decreases bs.len(),
{
    if bs.len() == 0 {
        assert(bs.push(b).drop_first() =~= Seq::<Seq<A>>::empty());
        assert(flatten_all(Seq::<Seq<A>>::empty()) == Seq::<A>::empty());
        assert(flatten_all(bs.push(b)) == b + Seq::<A>::empty());
        assert(b + Seq::<A>::empty() =~= b);
        assert(flatten_all(bs) + b =~= b);
    } else {
        assert(bs.push(b).drop_first() =~= bs.drop_first().push(b));
        assert(bs.push(b).first() == bs.first());
        lemma_flatten_all_push(bs.drop_first(), b);
        assert(bs.first() + (flatten_all(bs.drop_first()) + b)
            =~= (bs.first() + flatten_all(bs.drop_first())) + b);
    }
}

/// A run that flushed a full batch at every `n` rows and holds the remainder
/// in its scratch has produced exactly the chunking of what it scanned.
pub proof fn lemma_chunks_reconstruct<A>(bs: Seq<Seq<A>>, tail: Seq<A>, s: Seq<A>, n: int)
    requires
        n >= 1,
        forall|i: int| 0 <= i < bs.len() ==> (#[trigger] bs[i]).len() == n,
        tail.len() < n,
        flatten_all(bs) + tail == s,
    ensures
        tail.len() == 0 ==> chunks_of(s, n) == bs,
        tail.len() > 0 ==> chunks_of(s, n) == bs.push(tail),
    decreases bs.len(),
{
    if bs.len() == 0 {
        assert(s =~= tail);
        if tail.len() > 0 {
            assert(chunks_of(s, n) =~= Seq::<Seq<A>>::empty().push(tail));
        }
    } else {
        let b0 = bs.first();
        let rest = bs.drop_first();
        assert(bs[0].len() == n);
        assert(s =~= b0 + (flatten_all(rest) + tail));
        let s2 = flatten_all(rest) + tail;
        lemma_chunks_reconstruct(rest, tail, s2, n);
        assert(s.len() == n + s2.len());
        if s2.len() == 0 {
            // one full batch and nothing behind it
            assert(s.len() == n);
            assert(chunks_of(s, n) == seq![s]);
            assert(tail.len() == 0);
            assert(bs =~= seq![s]) by {
                assert(bs.len() == 1);
                assert(b0 =~= s);
            }
        } else {
            assert(s.len() > n);
            assert(chunks_of(s, n) == seq![s.take(n)] + chunks_of(s.skip(n), n));
            assert(s.take(n) =~= b0);
            assert(s.skip(n) =~= s2);
            if tail.len() == 0 {
                assert(seq![b0] + rest =~= bs);
            } else {
                assert(seq![b0] + rest.push(tail) =~= bs.push(tail));
            }
        }
    }
}

/// Chunking loses and duplicates nothing: the batches flatten back to the
/// stream.
pub proof fn lemma_chunks_flatten<A>(s: Seq<A>, n: int)
    requires
        n >= 1,
    ensures
        flatten_all(chunks_of(s, n)) == s,
    decreases s.len(),
{
    if s.len() == 0 {
        assert(flatten_all(chunks_of(s, n)) =~= s);
    } else if s.len() <= n {
        assert(chunks_of(s, n).drop_first() =~= Seq::<Seq<A>>::empty());
        assert(flatten_all(Seq::<Seq<A>>::empty()) == Seq::<A>::empty());
        assert(flatten_all(chunks_of(s, n)) == s + Seq::<A>::empty());
        assert(s + Seq::<A>::empty() =~= s);
    } else {
        lemma_chunks_flatten(s.skip(n), n);
        assert(chunks_of(s, n).drop_first() =~= chunks_of(s.skip(n), n));
        assert(flatten_all(chunks_of(s, n)) =~= s.take(n) + s.skip(n));
        assert(s.take(n) + s.skip(n) =~= s);
    }
}

/// How many batches a stream yields: `ceil(len / n)`.
pub proof fn lemma_chunks_count<A>(s: Seq<A>, n: int)
    requires
        n >= 1,
    ensures
        chunks_of(s, n).len() == (s.len() + n - 1) / n,
    decreases s.len(),
{
    if s.len() == 0 {
        assert((0 + n - 1) / n == 0) by (nonlinear_arith)
            requires n >= 1;
    } else if s.len() <= n {
        assert((s.len() + n - 1) / n == 1) by (nonlinear_arith)
            requires n >= 1 && 1 <= s.len() <= n;
    } else {
        lemma_chunks_count(s.skip(n), n);
        assert(s.skip(n).len() == s.len() - n);
        assert((s.len() - n + n - 1) / n + 1 == (s.len() + n - 1) / n) by (nonlinear_arith)
            requires n >= 1 && s.len() > n;
    }
}

/// Every batch is at most `n` rows, every batch before the last is exactly
/// `n` rows, and no batch is empty.
pub proof fn lemma_chunks_sizes<A>(s: Seq<A>, n: int)
    requires
        n >= 1,
    ensures
        forall|i: int| 0 <= i < chunks_of(s, n).len() ==> {
            &&& 1 <= (#[trigger] chunks_of(s, n)[i]).len() <= n
            &&& (i < chunks_of(s, n).len() - 1 ==> chunks_of(s, n)[i].len() == n)
        },
    decreases s.len(),
{
    if s.len() > n {
        lemma_chunks_sizes(s.skip(n), n);
        let whole = chunks_of(s, n);
        let rest = chunks_of(s.skip(n), n);
        assert(rest.len() >= 1);
        assert forall|i: int| 0 <= i < whole.len() implies {
            &&& 1 <= (#[trigger] whole[i]).len() <= n
            &&& (i < whole.len() - 1 ==> whole[i].len() == n)
        } by {
            if i > 0 {
                assert(whole[i] == rest[i - 1]);
            }
        }
    }
}

} // verus!
