//! Per-build-row matched flags, the one piece of state that several probe
//! workers update concurrently.
//!
//! Each worker owns a private board and records the build rows it matched;
//! the boards are merged with a bitwise-or reduction at the completion
//! barrier, before the reconciliation pass reads them. Setting a flag is
//! idempotent: a matched row staying matched is not an error.

use vstd::prelude::*;

use crate::row_ptr::RowPtr;
use crate::table::JoinHashTable;

verus! {

/// One worker's partial view of which build rows were matched, shaped like
/// the build side's chunk sequence.
pub struct MarkerBoard {
    /// `matched[c][r]` says whether build row `r` of chunk `c` was matched.
    pub matched: Vec<Vec<bool>>,
}

impl MarkerBoard {
    pub open spec fn view_flags(self) -> Seq<Seq<bool>> {
        self.matched@.map_values(|v: Vec<bool>| v@)
    }

    /// Shaped like the key view `kv`: one flag per build row.
    pub open spec fn wf_for(self, kv: Seq<Seq<Option<u64>>>) -> bool {
        &&& self.view_flags().len() == kv.len()
        &&& forall|c: int|
            0 <= c < kv.len() ==> (#[trigger] self.view_flags()[c]).len() == kv[c].len()
    }

    /// A pointer addresses a flag on this board.
    pub open spec fn ptr_on_board(self, p: RowPtr) -> bool {
        &&& (p.chunk_index as int) < self.view_flags().len()
        &&& (p.row_index as int) < self.view_flags()[p.chunk_index as int].len()
    }

    /// A fresh board for `table`, all rows still unmatched.
    pub fn create_for(table: &JoinHashTable) -> (b: MarkerBoard)
        requires
            table.wf(),
        ensures
            b.wf_for(table.kview()),
            forall|c: int, r: int|
                0 <= c < b.view_flags().len() && 0 <= r < b.view_flags()[c].len()
                    ==> !(#[trigger] b.view_flags()[c][r]),
    {
        let nc = table.num_chunks();
        let mut matched: Vec<Vec<bool>> = Vec::new();
        let mut c: usize = 0;
        while c < nc
            invariant
                c <= nc,
                nc == table.chunks@.len(),
                table.wf(),
                matched@.len() == c,
                forall|i: int|
                    0 <= i < c ==> (#[trigger] matched@[i])@.len() == table.kview()[i].len(),
                forall|i: int, r: int|
                    0 <= i < c && 0 <= r < matched@[i]@.len() ==> !(#[trigger] matched@[i]@[r]),
            decreases nc - c,
        {
            let n = table.chunks[c].keys.len();
            let mut row: Vec<bool> = Vec::new();
            let mut r: usize = 0;
            while r < n
                invariant
                    r <= n,
                    row@.len() == r,
                    forall|j: int| 0 <= j < r ==> !(#[trigger] row@[j]),
                decreases n - r,
            {
                row.push(false);
                r += 1;
            }
            matched.push(row);
            c += 1;
        }
        let b = MarkerBoard { matched };
        proof {
            assert forall|c0: int| 0 <= c0 < table.kview().len() implies
                (#[trigger] b.view_flags()[c0]).len() == table.kview()[c0].len() by {
                assert(b.view_flags()[c0] == b.matched@[c0]@);
            }
        }
        b
    }

    /// Records that the build row `p` addresses was matched. Idempotent.
    pub fn set_matched(&mut self, p: RowPtr)
        requires
            old(self).ptr_on_board(p),
        ensures
            final(self).view_flags() == old(self).view_flags().update(
                p.chunk_index as int,
                old(self).view_flags()[p.chunk_index as int].update(p.row_index as int, true),
            ),
    {
        let c = p.chunk_index;
        let r = p.row_index;
        let ghost prev = self.matched@;
        let mut row = self.matched.remove(c);
        row.set(r, true);
        self.matched.insert(c, row);
        proof {
            assert(self.matched@ =~= prev.update(c as int, row));
            assert(self.view_flags() =~= old(self).view_flags().update(
                c as int,
                old(self).view_flags()[c as int].update(r as int, true),
            ));
        }
    }

    /// Whether the row `p` addresses is recorded as matched.
    pub fn is_matched(&self, p: RowPtr) -> (m: bool)
        requires
            self.ptr_on_board(p),
        ensures
            m == self.view_flags()[p.chunk_index as int][p.row_index as int],
    {
        self.matched[p.chunk_index][p.row_index]
    }

    /// Folds another worker's partial board into this one: bitwise or, flag
    /// by flag. Run at the completion barrier, after every worker's probe
    /// phase has drained and before reconciliation reads the flags.
    pub fn merge(&mut self, other: &MarkerBoard)
        requires
            old(self).view_flags().len() == other.view_flags().len(),
            forall|c: int|
                0 <= c < other.view_flags().len() ==> (#[trigger] old(self).view_flags()[c]).len()
                    == other.view_flags()[c].len(),
        ensures
            final(self).view_flags().len() == old(self).view_flags().len(),
            forall|c: int|
                0 <= c < other.view_flags().len() ==> (#[trigger] final(self).view_flags()[c]).len()
                    == other.view_flags()[c].len(),
            forall|c: int, r: int|
                0 <= c < other.view_flags().len() && 0 <= r < other.view_flags()[c].len()
                    ==> #[trigger] final(self).view_flags()[c][r] == (old(self).view_flags()[c][r]
                        || other.view_flags()[c][r]),
    {
        let nc = self.matched.len();
        let mut c: usize = 0;
        while c < nc
            invariant
                c <= nc,
                nc == self.view_flags().len(),
                self.view_flags().len() == other.view_flags().len(),
                forall|i: int|
                    0 <= i < nc ==> (#[trigger] self.view_flags()[i]).len()
                        == other.view_flags()[i].len(),
                forall|i: int, r: int|
                    0 <= i < c && 0 <= r < other.view_flags()[i].len()
                        ==> #[trigger] self.view_flags()[i][r] == (old(self).view_flags()[i][r]
                            || other.view_flags()[i][r]),
                forall|i: int, r: int|
                    c <= i < nc && 0 <= r < other.view_flags()[i].len()
                        ==> #[trigger] self.view_flags()[i][r] == old(self).view_flags()[i][r],
            decreases nc - c,
        {
            let n = self.matched[c].len();
            let ghost start_flags = self.view_flags();
            proof {
                assert(self.view_flags()[c as int] == self.matched@[c as int]@);
            }
            let mut r: usize = 0;
            while r < n
                invariant
                    r <= n,
                    c < nc,
                    nc == self.view_flags().len(),
                    self.view_flags().len() == other.view_flags().len(),
                    n == other.view_flags()[c as int].len(),
                    forall|i: int|
                        0 <= i < nc ==> (#[trigger] self.view_flags()[i]).len()
                            == other.view_flags()[i].len(),
                    forall|i: int|
                        0 <= i < nc && i != c as int ==> #[trigger] self.view_flags()[i]
                            == start_flags[i],
                    forall|rr: int|
                        0 <= rr < r ==> #[trigger] self.view_flags()[c as int][rr]
                            == (start_flags[c as int][rr] || other.view_flags()[c as int][rr]),
                    forall|rr: int|
                        r <= rr < n ==> #[trigger] self.view_flags()[c as int][rr]
                            == start_flags[c as int][rr],
                decreases n - r,
            {
                if other.matched[c][r] {
                    let ghost prev = self.matched@;
                    let ghost pv = self.view_flags();
                    proof {
                        assert(pv[c as int] == prev[c as int]@);
                    }
                    let mut row = self.matched.remove(c);
                    row.set(r, true);
                    self.matched.insert(c, row);
                    proof {
                        assert(self.matched@ =~= prev.update(c as int, row));
                        assert(row@ == pv[c as int].update(r as int, true));
                        assert(self.view_flags() =~= pv.update(
                            c as int,
                            pv[c as int].update(r as int, true),
                        ));
                    }
                }
                r += 1;
            }
            c += 1;
        }
    }
}

} // verus!
