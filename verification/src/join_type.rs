//! The closed set of join variants and the capabilities each one needs.

use vstd::prelude::*;

verus! {

/// The join variants the operator supports.
///
/// The variant determines which optional scratch buffers are allocated and
/// which unmatched-row policy applies.
#[derive(Clone, Copy, Debug, PartialEq, Eq, Structural)]
pub enum JoinType {
    /// Matched pairs only.
    Inner,
    /// Matched pairs, plus one null-extended row per unmatched probe row.
    Left,
    /// Matched pairs, plus one null-extended row per unmatched build row
    /// at reconciliation time.
    Right,
    /// Both unmatched sides are null-extended.
    Full,
    /// Each probe row with at least one match, once.
    Semi,
    /// Each probe row with no match, once.
    Anti,
    /// Like `Left`, but more than one match for a probe row is an error.
    Single,
    /// Every probe row once, with a tri-state match indicator.
    Mark,
    /// Every probe row paired with every build row.
    Cross,
}

impl JoinType {
    /// Join types whose probe phase emits matched index pairs directly.
    pub open spec fn spec_emits_pairs(self) -> bool {
        match self {
            JoinType::Inner
            | JoinType::Left
            | JoinType::Right
            | JoinType::Full
            | JoinType::Single
            | JoinType::Cross => true,
            _ => false,
        }
    }

    /// Join types that keep one match counter per probe row, used to decide
    /// whether a null-extended row must still be emitted for that row.
    pub open spec fn spec_needs_row_state(self) -> bool {
        match self {
            JoinType::Left | JoinType::Single | JoinType::Full => true,
            _ => false,
        }
    }

    /// Join types that tag probe rows with a tri-state marker.
    pub open spec fn spec_needs_markers(self) -> bool {
        match self {
            JoinType::Semi | JoinType::Anti | JoinType::Mark => true,
            _ => false,
        }
    }

    /// Join types that record which build rows were matched, so that the
    /// reconciliation pass can emit the leftover unmatched build rows.
    pub open spec fn spec_marks_build_rows(self) -> bool {
        match self {
            JoinType::Right | JoinType::Full => true,
            _ => false,
        }
    }

    pub fn emits_pairs(self) -> (r: bool)
        ensures
            r == self.spec_emits_pairs(),
    {
        match self {
            JoinType::Inner
            | JoinType::Left
            | JoinType::Right
            | JoinType::Full
            | JoinType::Single
            | JoinType::Cross => true,
            _ => false,
        }
    }

    pub fn needs_row_state(self) -> (r: bool)
        ensures
            r == self.spec_needs_row_state(),
    {
        match self {
            JoinType::Left | JoinType::Single | JoinType::Full => true,
            _ => false,
        }
    }

    pub fn needs_markers(self) -> (r: bool)
        ensures
            r == self.spec_needs_markers(),
    {
        match self {
            JoinType::Semi | JoinType::Anti | JoinType::Mark => true,
            _ => false,
        }
    }

    pub fn marks_build_rows(self) -> (r: bool)
        ensures
            r == self.spec_marks_build_rows(),
    {
        match self {
            JoinType::Right | JoinType::Full => true,
            _ => false,
        }
    }
}

/// The error taxonomy of the join core.
///
/// Every error aborts the whole join; nothing is retried or swallowed inside
/// the core. Capacity overflow within a batch is not an error: it is handled
/// by yielding multiple output batches.
#[derive(Clone, Copy, Debug, PartialEq, Eq, Structural)]
pub enum JoinError {
    /// The configured memory budget of the build side would be exceeded.
    MemoryBudgetExceeded,
    /// A probe row of a `Single` join matched more than one build row.
    SingleJoinAmbiguity,
}

impl JoinError {
    /// A human-readable description of the error.
    pub fn describe(self) -> (r: &'static str)
        ensures
            self is MemoryBudgetExceeded ==> r@ == "build side exceeds the configured memory budget"@,
            self is SingleJoinAmbiguity ==> r@ == "single join matched more than one build row"@,
    {
        proof {
            reveal_strlit("build side exceeds the configured memory budget");
            reveal_strlit("single join matched more than one build row");
        }
        match self {
            JoinError::MemoryBudgetExceeded => "build side exceeds the configured memory budget",
            JoinError::SingleJoinAmbiguity => "single join matched more than one build row",
        }
    }
}

} // verus!
