//! The build-side table: chunked, append-only storage plus a read-only hash
//! index from join-key hashes to candidate row pointers.
//!
//! The build phase appends chunks and extends the index; `seal` ends it.
//! After sealing, nothing mutates the table, and probing may begin.

use vstd::prelude::*;

use crate::chunk::Chunk;
use crate::chunk::keys_of;
use crate::join_type::JoinError;
use crate::join_type::JoinType;
use crate::row_ptr::RowPtr;
use crate::row_ptr::mk_ptr;

verus! {

/// Multiplier of the key-hash function (the golden-ratio constant).
pub const HASH_MULTIPLIER: u64 = 0x9E37_79B9_7F4A_7C15;

/// The hash of a join key: multiplicative mixing, truncated to 64 bits.
/// Distinct keys may share a hash, so key equality is always re-verified.
pub open spec fn spec_key_hash(k: u64) -> u64 {
    vstd::wrapping::u64_specs::wrapping_mul(k, HASH_MULTIPLIER)
}

/// The bucket that the key `k` falls into, out of `nb` buckets.
pub open spec fn spec_bucket_of(k: u64, nb: int) -> int {
    spec_key_hash(k) as int % nb
}

pub fn key_hash(k: u64) -> (h: u64)
    ensures
        h == spec_key_hash(k),
{
    k.wrapping_mul(HASH_MULTIPLIER)
}

pub fn bucket_of(k: u64, nb: usize) -> (b: usize)
    requires
        nb >= 1,
    ensures
        b as int == spec_bucket_of(k, nb as int),
        b < nb,
{
    let h = key_hash(k);
    (h % (nb as u64)) as usize
}

/// Key equality as the join sees it: a null key equals nothing, not even
/// another null key.
pub open spec fn key_eq(bk: Option<u64>, pk: Option<u64>) -> bool {
    match (bk, pk) {
        (Some(b), Some(p)) => b == p,
        _ => false,
    }
}

/// Whether a build key belongs in bucket `b` of `nb`.
pub open spec fn in_bucket(k: Option<u64>, b: int, nb: int) -> bool {
    match k {
        Some(x) => spec_bucket_of(x, nb) == b,
        None => false,
    }
}

/// The pointers of the rows of chunk `c` (with keys `ks`) whose key equals
/// `pk`, in row order.
pub open spec fn chunk_matches(ks: Seq<Option<u64>>, c: int, pk: u64) -> Seq<RowPtr>
    decreases ks.len(),
{
    if ks.len() == 0 {
        Seq::empty()
    } else {
        let pre = chunk_matches(ks.drop_last(), c, pk);
        if key_eq(ks.last(), Some(pk)) {
            pre.push(mk_ptr(c, ks.len() - 1))
        } else {
            pre
        }
    }
}

/// The matching pointers of the first `n` chunks, in build arrival order.
pub open spec fn matches_upto(kv: Seq<Seq<Option<u64>>>, n: int, pk: u64) -> Seq<RowPtr>
    decreases n,
{
    if n <= 0 {
        Seq::empty()
    } else {
        matches_upto(kv, n - 1, pk) + chunk_matches(kv[n - 1], n - 1, pk)
    }
}

/// All build rows whose key equals `pk`, in build arrival order: chunk order
/// first, then row order within each chunk. Duplicate keys are preserved as
/// separate entries.
pub open spec fn match_ptrs(kv: Seq<Seq<Option<u64>>>, pk: u64) -> Seq<RowPtr> {
    matches_upto(kv, kv.len() as int, pk)
}

/// The pointers of the rows of one chunk that land in bucket `b`.
pub open spec fn chunk_bucket(ks: Seq<Option<u64>>, c: int, b: int, nb: int) -> Seq<RowPtr>
    decreases ks.len(),
{
    if ks.len() == 0 {
        Seq::empty()
    } else {
        let pre = chunk_bucket(ks.drop_last(), c, b, nb);
        if in_bucket(ks.last(), b, nb) {
            pre.push(mk_ptr(c, ks.len() - 1))
        } else {
            pre
        }
    }
}

pub open spec fn bucket_upto(kv: Seq<Seq<Option<u64>>>, n: int, b: int, nb: int) -> Seq<RowPtr>
    decreases n,
{
    if n <= 0 {
        Seq::empty()
    } else {
        bucket_upto(kv, n - 1, b, nb) + chunk_bucket(kv[n - 1], n - 1, b, nb)
    }
}

/// What bucket `b` of the hash index holds: every non-null-key row whose key
/// hashes into `b`, in build arrival order.
pub open spec fn bucket_ptrs(kv: Seq<Seq<Option<u64>>>, b: int, nb: int) -> Seq<RowPtr> {
    bucket_upto(kv, kv.len() as int, b, nb)
}

/// The pointers of the first `len` rows of chunk `c`, keys ignored.
pub open spec fn chunk_rows(len: int, c: int) -> Seq<RowPtr>
    decreases len,
{
    if len <= 0 {
        Seq::empty()
    } else {
        chunk_rows(len - 1, c).push(mk_ptr(c, len - 1))
    }
}

pub open spec fn rows_upto(kv: Seq<Seq<Option<u64>>>, n: int) -> Seq<RowPtr>
    decreases n,
{
    if n <= 0 {
        Seq::empty()
    } else {
        rows_upto(kv, n - 1) + chunk_rows(kv[n - 1].len() as int, n - 1)
    }
}

/// Every build row, in build arrival order.
pub open spec fn all_ptrs(kv: Seq<Seq<Option<u64>>>) -> Seq<RowPtr> {
    rows_upto(kv, kv.len() as int)
}

pub open spec fn rows_total(kv: Seq<Seq<Option<u64>>>, n: int) -> int
    decreases n,
{
    if n <= 0 {
        0
    } else {
        rows_total(kv, n - 1) + kv[n - 1].len()
    }
}

/// How many rows the build side holds in all.
pub open spec fn total_row_count(kv: Seq<Seq<Option<u64>>>) -> int {
    rows_total(kv, kv.len() as int)
}

/// A pointer addresses an existing row.
pub open spec fn ptr_valid(kv: Seq<Seq<Option<u64>>>, p: RowPtr) -> bool {
    &&& (p.chunk_index as int) < kv.len()
    &&& (p.row_index as int) < kv[p.chunk_index as int].len()
}

/// The key of the row a pointer addresses.
pub open spec fn key_at(kv: Seq<Seq<Option<u64>>>, p: RowPtr) -> Option<u64> {
    kv[p.chunk_index as int][p.row_index as int]
}

/// Chunk count and every chunk's row count fit the machine's index type.
/// Every key view taken from real storage satisfies this.
pub open spec fn kv_bounded(kv: Seq<Seq<Option<u64>>>) -> bool {
    &&& kv.len() <= usize::MAX
    &&& forall|i: int| 0 <= i < kv.len() ==> (#[trigger] kv[i]).len() <= usize::MAX
}

/// Whether the build side holds at least one row with a null key.
pub open spec fn has_null_key(kv: Seq<Seq<Option<u64>>>) -> bool {
    exists|c: int, r: int|
        0 <= c < kv.len() && 0 <= r < kv[c].len() && #[trigger] kv[c][r] is None
}

/// The entries of a pointer sequence whose build key equals `pk`, in order.
/// Probing filters a hash bucket through this: hash equality is never
/// trusted, key equality is re-checked.
pub open spec fn sel_eq(entries: Seq<RowPtr>, kv: Seq<Seq<Option<u64>>>, pk: u64) -> Seq<RowPtr>
    decreases entries.len(),
{
    if entries.len() == 0 {
        Seq::empty()
    } else {
        let pre = sel_eq(entries.drop_last(), kv, pk);
        if key_eq(key_at(kv, entries.last()), Some(pk)) {
            pre.push(entries.last())
        } else {
            pre
        }
    }
}

// ---------------------------------------------------------------------------
// Lemmas about the index model
// ---------------------------------------------------------------------------

/// A key view taken from real chunk storage is bounded: every length came
/// from a vector.
pub proof fn lemma_kview_bounded(chunks: &Vec<Chunk>)
    ensures
        kv_bounded(keys_of(chunks@)),
{
    vstd::std_specs::vec::axiom_spec_len(chunks);
    let kv = keys_of(chunks@);
    assert forall|i: int| 0 <= i < kv.len() implies (#[trigger] kv[i]).len() <= usize::MAX by {
        vstd::std_specs::vec::axiom_spec_len(&chunks@[i].keys);
        assert(kv[i] == chunks@[i].keys@);
    }
}

/// The first `n` chunks of two equal prefixes give the same buckets.
proof fn lemma_bucket_upto_prefix(kv1: Seq<Seq<Option<u64>>>, kv2: Seq<Seq<Option<u64>>>, n: int, b: int, nb: int)
    requires
        n <= kv1.len(),
        n <= kv2.len(),
        forall|i: int| 0 <= i < n ==> kv1[i] == kv2[i],
    ensures
        bucket_upto(kv1, n, b, nb) == bucket_upto(kv2, n, b, nb),
    decreases n,
{
    if n > 0 {
        lemma_bucket_upto_prefix(kv1, kv2, n - 1, b, nb);
    }
}

proof fn lemma_rows_upto_prefix(kv1: Seq<Seq<Option<u64>>>, kv2: Seq<Seq<Option<u64>>>, n: int)
    requires
        n <= kv1.len(),
        n <= kv2.len(),
        forall|i: int| 0 <= i < n ==> kv1[i] == kv2[i],
    ensures
        rows_upto(kv1, n) == rows_upto(kv2, n),
        rows_total(kv1, n) == rows_total(kv2, n),
    decreases n,
{
    if n > 0 {
        lemma_rows_upto_prefix(kv1, kv2, n - 1);
    }
}

/// Selection distributes over concatenation of entry sequences.
proof fn lemma_sel_eq_add(a: Seq<RowPtr>, b: Seq<RowPtr>, kv: Seq<Seq<Option<u64>>>, pk: u64)
    ensures
        sel_eq(a + b, kv, pk) == sel_eq(a, kv, pk) + sel_eq(b, kv, pk),
    decreases b.len(),
{
    if b.len() == 0 {
        assert(a + b =~= a);
        assert(sel_eq(a, kv, pk) + sel_eq(b, kv, pk) =~= sel_eq(a, kv, pk));
    } else {
        lemma_sel_eq_add(a, b.drop_last(), kv, pk);
        assert((a + b).drop_last() =~= a + b.drop_last());
        assert((a + b).last() == b.last());
        if key_eq(key_at(kv, b.last()), Some(pk)) {
            assert(sel_eq(a, kv, pk) + sel_eq(b.drop_last(), kv, pk).push(b.last())
                =~= (sel_eq(a, kv, pk) + sel_eq(b.drop_last(), kv, pk)).push(b.last()));
        }
    }
}

/// Filtering one chunk's bucket entries by true key equality yields exactly
/// that chunk's matching rows, provided `pk` hashes into this bucket.
proof fn lemma_sel_chunk(ks: Seq<Option<u64>>, kv: Seq<Seq<Option<u64>>>, c: int, pk: u64, b: int, nb: int)
    requires
        nb >= 1,
        spec_bucket_of(pk, nb) == b,
        0 <= c < kv.len(),
        kv.len() <= usize::MAX,
        ks.len() <= usize::MAX,
        ks.len() <= kv[c].len(),
        forall|r: int| 0 <= r < ks.len() ==> ks[r] == kv[c][r],
    ensures
        sel_eq(chunk_bucket(ks, c, b, nb), kv, pk) == chunk_matches(ks, c, pk),
    decreases ks.len(),
{
    if ks.len() > 0 {
        lemma_sel_chunk(ks.drop_last(), kv, c, pk, b, nb);
        let e = mk_ptr(c, ks.len() - 1);
        assert(ks[ks.len() - 1] == kv[c][ks.len() - 1]);
        assert(key_at(kv, e) == ks.last());
        let pre = chunk_bucket(ks.drop_last(), c, b, nb);
        if in_bucket(ks.last(), b, nb) {
            assert(chunk_bucket(ks, c, b, nb) == pre.push(e));
            assert(pre.push(e).drop_last() =~= pre);
            assert(pre.push(e).last() == e);
        }
        if key_eq(ks.last(), Some(pk)) {
            assert(in_bucket(ks.last(), b, nb));
        }
    }
}

/// Filtering a whole bucket by key equality yields exactly the matching rows
/// of the build side, in build arrival order.
proof fn lemma_sel_bucket(kv: Seq<Seq<Option<u64>>>, n: int, pk: u64, b: int, nb: int)
    requires
        nb >= 1,
        spec_bucket_of(pk, nb) == b,
        0 <= n <= kv.len(),
        kv_bounded(kv),
    ensures
        sel_eq(bucket_upto(kv, n, b, nb), kv, pk) == matches_upto(kv, n, pk),
    decreases n,
{
    if n > 0 {
        lemma_sel_bucket(kv, n - 1, pk, b, nb);
        lemma_sel_eq_add(bucket_upto(kv, n - 1, b, nb), chunk_bucket(kv[n - 1], n - 1, b, nb), kv, pk);
        lemma_sel_chunk(kv[n - 1], kv, n - 1, pk, b, nb);
    }
}

proof fn lemma_chunk_bucket_entries(ks: Seq<Option<u64>>, c: int, b: int, nb: int)
    requires
        0 <= c <= usize::MAX,
        ks.len() <= usize::MAX,
    ensures
        forall|i: int| 0 <= i < chunk_bucket(ks, c, b, nb).len() ==> {
            let e = #[trigger] chunk_bucket(ks, c, b, nb)[i];
            &&& e.chunk_index == c
            &&& (e.row_index as int) < ks.len()
            &&& in_bucket(ks[e.row_index as int], b, nb)
            &&& e.marker is None
        },
    decreases ks.len(),
{
    if ks.len() > 0 {
        lemma_chunk_bucket_entries(ks.drop_last(), c, b, nb);
        let whole = chunk_bucket(ks, c, b, nb);
        let pre = chunk_bucket(ks.drop_last(), c, b, nb);
        assert forall|i: int| 0 <= i < whole.len() implies {
            let e = #[trigger] whole[i];
            &&& e.chunk_index == c
            &&& (e.row_index as int) < ks.len()
            &&& in_bucket(ks[e.row_index as int], b, nb)
            &&& e.marker is None
        } by {
            if i < pre.len() {
                assert(whole[i] == pre[i]);
                assert(ks.drop_last()[pre[i].row_index as int] == ks[pre[i].row_index as int]);
            } else {
                assert(in_bucket(ks.last(), b, nb));
                assert(whole[i] == mk_ptr(c, ks.len() - 1));
            }
        }
    }
}

/// Every bucket entry is a valid pointer, carries no marker, and its key
/// hashes into this bucket.
proof fn lemma_bucket_entries_valid(kv: Seq<Seq<Option<u64>>>, n: int, b: int, nb: int)
    requires
        0 <= n <= kv.len(),
        kv_bounded(kv),
    ensures
        forall|i: int| 0 <= i < bucket_upto(kv, n, b, nb).len() ==> {
            let e = #[trigger] bucket_upto(kv, n, b, nb)[i];
            &&& (e.chunk_index as int) < n
            &&& (e.row_index as int) < kv[e.chunk_index as int].len()
            &&& in_bucket(key_at(kv, e), b, nb)
            &&& e.marker is None
        },
    decreases n,
{
    if n > 0 {
        lemma_bucket_entries_valid(kv, n - 1, b, nb);
        lemma_chunk_bucket_entries(kv[n - 1], n - 1, b, nb);
        let whole = bucket_upto(kv, n, b, nb);
        let pre = bucket_upto(kv, n - 1, b, nb);
        let cur = chunk_bucket(kv[n - 1], n - 1, b, nb);
        assert forall|i: int| 0 <= i < whole.len() implies {
            let e = #[trigger] whole[i];
            &&& (e.chunk_index as int) < n
            &&& (e.row_index as int) < kv[e.chunk_index as int].len()
            &&& in_bucket(key_at(kv, e), b, nb)
            &&& e.marker is None
        } by {
            if i < pre.len() {
                assert(whole[i] == pre[i]);
            } else {
                assert(whole[i] == cur[i - pre.len()]);
            }
        }
    }
}

proof fn lemma_chunk_matches_contains(ks: Seq<Option<u64>>, c: int, pk: u64)
    requires
        0 <= c <= usize::MAX,
        ks.len() <= usize::MAX,
    ensures
        forall|p: RowPtr| #[trigger] chunk_matches(ks, c, pk).contains(p) <==> {
            &&& p.chunk_index == c
            &&& (p.row_index as int) < ks.len()
            &&& key_eq(ks[p.row_index as int], Some(pk))
            &&& p.marker is None
        },
    decreases ks.len(),
{
    if ks.len() > 0 {
        lemma_chunk_matches_contains(ks.drop_last(), c, pk);
        assert(forall|r: int| 0 <= r < ks.len() - 1 ==> ks.drop_last()[r] == ks[r]);
        let whole = chunk_matches(ks, c, pk);
        let pre = chunk_matches(ks.drop_last(), c, pk);
        assert forall|p: RowPtr| #[trigger] whole.contains(p) implies {
            &&& p.chunk_index == c
            &&& (p.row_index as int) < ks.len()
            &&& key_eq(ks[p.row_index as int], Some(pk))
            &&& p.marker is None
        } by {
            let i = choose|i: int| 0 <= i < whole.len() && whole[i] == p;
            if i < pre.len() {
                assert(pre[i] == p);
                assert(pre.contains(p));
                assert(ks.drop_last()[p.row_index as int] == ks[p.row_index as int]);
            } else {
                assert(key_eq(ks.last(), Some(pk)));
                assert(p == mk_ptr(c, ks.len() - 1));
            }
        }
        assert forall|p: RowPtr|
            (p.chunk_index == c && (p.row_index as int) < ks.len()
                && key_eq(ks[p.row_index as int], Some(pk)) && p.marker is None)
            implies #[trigger] whole.contains(p) by {
            if (p.row_index as int) < ks.len() - 1 {
                assert(ks.drop_last()[p.row_index as int] == ks[p.row_index as int]);
                assert(pre.contains(p));
                let i = choose|i: int| 0 <= i < pre.len() && pre[i] == p;
                assert(whole[i] == p);
                assert(whole.contains(p));
            } else {
                assert(p == mk_ptr(c, ks.len() - 1));
                assert(whole.last() == p);
                assert(whole.contains(p));
            }
        }
    }
}

/// Membership in the match list characterized pointwise: a pointer is in
/// `matches_upto(kv, n, pk)` exactly when it addresses a row among the first
/// `n` chunks whose key equals `pk`.
pub proof fn lemma_matches_contains(kv: Seq<Seq<Option<u64>>>, n: int, pk: u64)
    requires
        0 <= n <= kv.len(),
        kv_bounded(kv),
    ensures
        forall|p: RowPtr| #[trigger] matches_upto(kv, n, pk).contains(p) <==> {
            &&& (p.chunk_index as int) < n
            &&& (p.row_index as int) < kv[p.chunk_index as int].len()
            &&& key_eq(key_at(kv, p), Some(pk))
            &&& p.marker is None
        },
    decreases n,
{
    if n > 0 {
        lemma_matches_contains(kv, n - 1, pk);
        lemma_chunk_matches_contains(kv[n - 1], n - 1, pk);
        let whole = matches_upto(kv, n, pk);
        let pre = matches_upto(kv, n - 1, pk);
        let cur = chunk_matches(kv[n - 1], n - 1, pk);
        assert forall|p: RowPtr| #[trigger] whole.contains(p) implies {
            &&& (p.chunk_index as int) < n
            &&& (p.row_index as int) < kv[p.chunk_index as int].len()
            &&& key_eq(key_at(kv, p), Some(pk))
            &&& p.marker is None
        } by {
            let i = choose|i: int| 0 <= i < whole.len() && whole[i] == p;
            if i < pre.len() {
                assert(pre.contains(p));
            } else {
                assert(cur.contains(p));
            }
        }
        assert forall|p: RowPtr|
            ((p.chunk_index as int) < n && (p.row_index as int) < kv[p.chunk_index as int].len()
                && key_eq(key_at(kv, p), Some(pk)) && p.marker is None)
            implies #[trigger] whole.contains(p) by {
            if (p.chunk_index as int) < n - 1 {
                assert(pre.contains(p));
                let i = choose|i: int| 0 <= i < pre.len() && pre[i] == p;
                assert(whole[i] == p);
            } else {
                assert(cur.contains(p));
                let i = choose|i: int| 0 <= i < cur.len() && cur[i] == p;
                assert(whole[pre.len() + i] == p);
            }
        }
    }
}

// ---------------------------------------------------------------------------
// The table itself
// ---------------------------------------------------------------------------

/// The build side of one hash join: numbered, append-only chunks plus the
/// hash index. Created once per operator instance; sealed before probing;
/// read-only and safely shared from then on.
pub struct JoinHashTable {
    /// The join variant this operator executes.
    pub join_type: JoinType,
    /// Number of payload columns of every build chunk.
    pub build_width: usize,
    /// The configured memory budget, counted in rows. Exceeding it is fatal.
    pub row_budget: usize,
    /// The chunked build storage, in arrival order. Never mutated after
    /// the build phase ends.
    pub chunks: Vec<Chunk>,
    /// The hash index: bucket `b` lists, in build arrival order, every row
    /// whose non-null key hashes into `b`.
    pub buckets: Vec<Vec<RowPtr>>,
    /// Total rows stored, across all chunks.
    pub total_rows: usize,
    /// Whether any build row has a null join key (needed by mark joins).
    pub has_null_build_key: bool,
    /// Set once by `seal`; no mutation is permitted afterwards.
    pub sealed: bool,
}

impl JoinHashTable {
    /// The key columns of the stored chunks: the model that every matching
    /// contract is stated over.
    pub open spec fn kview(self) -> Seq<Seq<Option<u64>>> {
        keys_of(self.chunks@)
    }

    pub open spec fn num_buckets(self) -> int {
        self.buckets@.len() as int
    }

    /// Well-formedness: chunks agree with the schema, every bucket holds
    /// exactly the model's contents, and the cached counters are honest.
    pub open spec fn wf(self) -> bool {
        &&& self.num_buckets() >= 1
        &&& forall|i: int|
            0 <= i < self.chunks@.len() ==> (#[trigger] self.chunks@[i]).wf(
                self.build_width as int,
            )
        &&& forall|b: int|
            0 <= b < self.num_buckets() ==> (#[trigger] self.buckets@[b])@ == bucket_ptrs(
                self.kview(),
                b,
                self.num_buckets(),
            )
        &&& self.total_rows as int == total_row_count(self.kview())
        &&& self.total_rows <= self.row_budget
        &&& self.has_null_build_key == has_null_key(self.kview())
    }

    /// A fresh, unsealed table with an empty index.
    ///
    /// `row_budget` is the memory budget in rows; `num_buckets` sizes the
    /// hash index; `build_width` is the payload column count of the build
    /// schema.
    pub fn create(join_type: JoinType, num_buckets: usize, row_budget: usize, build_width: usize) -> (t: JoinHashTable)
        requires
            num_buckets >= 1,
        ensures
            t.wf(),
            !t.sealed,
            t.join_type == join_type,
            t.build_width == build_width,
            t.row_budget == row_budget,
            t.chunks@.len() == 0,
            t.total_rows == 0,
            t.num_buckets() == num_buckets,
    {
        let mut buckets: Vec<Vec<RowPtr>> = Vec::new();
        let mut b: usize = 0;
        while b < num_buckets
            invariant
                b <= num_buckets,
                buckets@.len() == b,
                forall|i: int| 0 <= i < b ==> (#[trigger] buckets@[i])@.len() == 0,
            decreases num_buckets - b,
        {
            buckets.push(Vec::new());
            b += 1;
        }
        let t = JoinHashTable {
            join_type,
            build_width,
            row_budget,
            chunks: Vec::new(),
            buckets,
            total_rows: 0,
            has_null_build_key: false,
            sealed: false,
        };
        proof {
            assert(t.kview() =~= Seq::<Seq<Option<u64>>>::empty());
            assert forall|bb: int| 0 <= bb < t.num_buckets() implies (#[trigger] t.buckets@[bb])@
                == bucket_ptrs(t.kview(), bb, t.num_buckets()) by {
                assert(bucket_ptrs(t.kview(), bb, t.num_buckets()) =~= Seq::<RowPtr>::empty());
                assert(t.buckets@[bb]@ =~= Seq::<RowPtr>::empty());
            }
            assert(!has_null_key(t.kview()));
        }
        t
    }

    /// Appends one build batch as a new chunk and extends the hash index with
    /// one entry per non-null-key row. A null-key row is stored (outer joins
    /// need it) but never indexed, since a null key cannot equal any probe
    /// key.
    ///
    /// Fails, leaving the table unchanged, exactly when the configured memory
    /// budget would be exceeded.
    pub fn add_chunk(&mut self, chunk: Chunk) -> (res: Result<(), JoinError>)
        requires
            old(self).wf(),
            !old(self).sealed,
            chunk.wf(old(self).build_width as int),
        ensures
            final(self).wf(),
            !final(self).sealed,
            final(self).join_type == old(self).join_type,
            final(self).build_width == old(self).build_width,
            final(self).row_budget == old(self).row_budget,
            final(self).num_buckets() == old(self).num_buckets(),
            res matches Err(e) ==> {
                &&& e == JoinError::MemoryBudgetExceeded
                &&& *final(self) == *old(self)
                &&& old(self).total_rows + chunk.keys@.len() > old(self).row_budget
            },
            res is Ok ==> {
                &&& old(self).total_rows + chunk.keys@.len() <= old(self).row_budget
                &&& final(self).chunks@ == old(self).chunks@.push(chunk)
                &&& final(self).kview() == old(self).kview().push(chunk.keys@)
                &&& final(self).total_rows == old(self).total_rows + chunk.keys@.len()
            },
    {
        let n = chunk.keys.len();
        if n > self.row_budget - self.total_rows {
            return Err(JoinError::MemoryBudgetExceeded);
        }
        let ghost old_kv = self.kview();
        let ghost old_null = self.has_null_build_key;
        let nb = self.buckets.len();
        let c = self.chunks.len();
        self.total_rows = self.total_rows + n;
        self.chunks.push(chunk);
        let ghost new_kv = self.kview();
        let ghost ks = self.chunks@[c as int].keys@;
        proof {
            assert(new_kv =~= old_kv.push(ks));
        }
        let mut r: usize = 0;
        while r < n
            invariant
                r <= n,
                nb == self.num_buckets(),
                nb >= 1,
                self.chunks@ == old(self).chunks@.push(chunk),
                self.kview() == new_kv,
                new_kv == old_kv.push(ks),
                old_kv == old(self).kview(),
                c == self.chunks@.len() - 1,
                c == old(self).chunks@.len(),
                ks == self.chunks@[c as int].keys@,
                ks == chunk.keys@,
                n == ks.len(),
                self.join_type == old(self).join_type,
                self.build_width == old(self).build_width,
                self.row_budget == old(self).row_budget,
                self.sealed == old(self).sealed,
                self.total_rows == old(self).total_rows + n,
                old(self).total_rows + n <= old(self).row_budget,
                old(self).wf(),
                chunk.wf(old(self).build_width as int),
                forall|bb: int|
                    0 <= bb < nb ==> (#[trigger] self.buckets@[bb])@ == bucket_ptrs(old_kv, bb, nb as int)
                        + chunk_bucket(ks.take(r as int), c as int, bb, nb as int),
                self.has_null_build_key == (old_null || exists|j: int| 0 <= j < r && ks[j] is None),
            decreases n - r,
        {
            let key = self.chunks[c].keys[r];
            proof {
                assert(ks.take(r as int + 1).drop_last() =~= ks.take(r as int));
                assert(ks.take(r as int + 1).last() == ks[r as int]);
            }
            match key {
                None => {
                    self.has_null_build_key = true;
                    proof {
                        assert(ks[r as int] is None);
                        assert forall|bb: int| 0 <= bb < nb implies
                            chunk_bucket(ks.take(r as int + 1), c as int, bb, nb as int)
                                == chunk_bucket(ks.take(r as int), c as int, bb, nb as int) by {
                            assert(!in_bucket(ks[r as int], bb, nb as int));
                        }
                    }
                }
                Some(k) => {
                    let b = bucket_of(k, nb);
                    let mut lst = self.buckets.remove(b);
                    lst.push(RowPtr::new(c, r));
                    self.buckets.insert(b, lst);
                    proof {
                        assert(self.buckets@.len() == nb);
                        assert forall|bb: int| 0 <= bb < nb implies (#[trigger] self.buckets@[bb])@
                            == bucket_ptrs(old_kv, bb, nb as int)
                                + chunk_bucket(ks.take(r as int + 1), c as int, bb, nb as int) by {
                            if bb == b as int {
                                assert(in_bucket(ks[r as int], bb, nb as int));
                                assert(self.buckets@[bb]@ == (bucket_ptrs(old_kv, bb, nb as int)
                                    + chunk_bucket(ks.take(r as int), c as int, bb, nb as int)).push(
                                    mk_ptr(c as int, r as int)));
                                assert((bucket_ptrs(old_kv, bb, nb as int)
                                    + chunk_bucket(ks.take(r as int), c as int, bb, nb as int)).push(
                                    mk_ptr(c as int, r as int))
                                    =~= bucket_ptrs(old_kv, bb, nb as int)
                                        + chunk_bucket(ks.take(r as int), c as int, bb, nb as int).push(
                                        mk_ptr(c as int, r as int)));
                            } else {
                                assert(!(in_bucket(ks[r as int], bb, nb as int)));
                            }
                        }
                    }
                }
            }
            r += 1;
        }
        proof {
            assert(ks.take(n as int) =~= ks);
            // Buckets now reflect the pushed chunk.
            assert forall|bb: int| 0 <= bb < nb implies (#[trigger] self.buckets@[bb])@
                == bucket_ptrs(new_kv, bb, nb as int) by {
                lemma_bucket_upto_prefix(old_kv, new_kv, old_kv.len() as int, bb, nb as int);
                assert(bucket_upto(new_kv, new_kv.len() as int, bb, nb as int)
                    == bucket_upto(new_kv, new_kv.len() as int - 1, bb, nb as int)
                        + chunk_bucket(new_kv[new_kv.len() - 1], new_kv.len() as int - 1, bb, nb as int));
            }
            // The row counter stays honest.
            lemma_rows_upto_prefix(old_kv, new_kv, old_kv.len() as int);
            assert(rows_total(new_kv, new_kv.len() as int)
                == rows_total(new_kv, new_kv.len() as int - 1) + ks.len());
            // The null-key flag stays honest.
            assert(self.has_null_build_key == has_null_key(new_kv)) by {
                if old_null {
                    let (cc, rr) = choose|cc: int, rr: int|
                        0 <= cc < old_kv.len() && 0 <= rr < old_kv[cc].len()
                            && #[trigger] old_kv[cc][rr] is None;
                    assert(new_kv[cc][rr] is None);
                    assert(has_null_key(new_kv));
                } else if exists|j: int| 0 <= j < n && ks[j] is None {
                    let j = choose|j: int| 0 <= j < n && ks[j] is None;
                    assert(new_kv[c as int][j] is None);
                    assert(has_null_key(new_kv));
                } else if has_null_key(new_kv) {
                    let (cc, rr) = choose|cc: int, rr: int|
                        0 <= cc < new_kv.len() && 0 <= rr < new_kv[cc].len()
                            && #[trigger] new_kv[cc][rr] is None;
                    if cc < old_kv.len() {
                        assert(old_kv[cc][rr] is None);
                        assert(has_null_key(old_kv));
                    } else {
                        assert(ks[rr] is None);
                    }
                }
            }
        }
        Ok(())
    }

    /// Ends the build phase. Callable once; afterwards the table is
    /// immutable and its index may be probed.
    pub fn seal(&mut self)
        requires
            old(self).wf(),
            !old(self).sealed,
        ensures
            final(self).wf(),
            final(self).sealed,
            final(self).join_type == old(self).join_type,
            final(self).build_width == old(self).build_width,
            final(self).row_budget == old(self).row_budget,
            final(self).chunks == old(self).chunks,
            final(self).buckets == old(self).buckets,
            final(self).total_rows == old(self).total_rows,
            final(self).has_null_build_key == old(self).has_null_build_key,
    {
        self.sealed = true;
    }

    /// Fetches the candidate list for a probe key and re-verifies key
    /// equality on each candidate: the result is exactly the build rows whose
    /// key equals `k`, in build arrival order.
    pub fn probe_key(&self, k: u64) -> (out: Vec<RowPtr>)
        requires
            self.wf(),
        ensures
            out@ == match_ptrs(self.kview(), k),
    {
        let ghost kv = self.kview();
        let nb = self.buckets.len();
        let b = bucket_of(k, nb);
        proof {
            lemma_kview_bounded(&self.chunks);
            lemma_bucket_entries_valid(kv, kv.len() as int, b as int, nb as int);
            lemma_sel_bucket(kv, kv.len() as int, k, b as int, nb as int);
        }
        let lst = &self.buckets[b];
        let ghost entries = lst@;
        let mut out: Vec<RowPtr> = Vec::new();
        let mut j: usize = 0;
        while j < lst.len()
            invariant
                j <= lst.len(),
                entries == lst@,
                lst@ == bucket_ptrs(kv, b as int, nb as int),
                kv == self.kview(),
                self.wf(),
                b < nb,
                nb == self.num_buckets(),
                forall|i: int| 0 <= i < entries.len() ==> {
                    let e = #[trigger] entries[i];
                    &&& (e.chunk_index as int) < kv.len()
                    &&& (e.row_index as int) < kv[e.chunk_index as int].len()
                },
                out@ == sel_eq(entries.take(j as int), kv, k),
            decreases lst.len() - j,
        {
            let e = lst[j];
            proof {
                assert(entries.take(j as int + 1).drop_last() =~= entries.take(j as int));
                assert(entries.take(j as int + 1).last() == entries[j as int]);
            }
            let row_key = self.chunks[e.chunk_index].keys[e.row_index];
            let is_match = match row_key {
                Some(x) => x == k,
                None => false,
            };
            proof {
                assert(key_at(kv, e) == self.chunks@[e.chunk_index as int].keys@[e.row_index as int]);
                assert(is_match == key_eq(key_at(kv, e), Some(k)));
            }
            if is_match {
                out.push(e);
            }
            j += 1;
        }
        proof {
            assert(entries.take(entries.len() as int) =~= entries);
        }
        out
    }

    /// Every build row, in build arrival order, keys ignored. The candidate
    /// list of a cross join.
    pub fn all_row_ptrs(&self) -> (out: Vec<RowPtr>)
        requires
            self.wf(),
        ensures
            out@ == all_ptrs(self.kview()),
    {
        let ghost kv = self.kview();
        let mut out: Vec<RowPtr> = Vec::new();
        let nc = self.chunks.len();
        let mut c: usize = 0;
        while c < nc
            invariant
                c <= nc,
                nc == self.chunks@.len(),
                kv == self.kview(),
                self.wf(),
                out@ == rows_upto(kv, c as int),
            decreases nc - c,
        {
            let n = self.chunks[c].keys.len();
            let mut r: usize = 0;
            while r < n
                invariant
                    r <= n,
                    c < nc,
                    nc == self.chunks@.len(),
                    n == kv[c as int].len(),
                    kv == self.kview(),
                    self.wf(),
                    out@ == rows_upto(kv, c as int) + chunk_rows(r as int, c as int),
                decreases n - r,
            {
                out.push(RowPtr::new(c, r));
                r += 1;
            }
            proof {
                assert(rows_upto(kv, c as int + 1)
                    == rows_upto(kv, c as int) + chunk_rows(kv[c as int].len() as int, c as int));
            }
            c += 1;
        }
        out
    }

    pub fn num_chunks(&self) -> (n: usize)
        ensures
            n == self.chunks@.len(),
    {
        self.chunks.len()
    }
}

} // verus!
