//! The key range of a segment, by which scans and compactions decide whether the
//! segment concerns them.

use vstd::prelude::*;
use crate::fs::FileId;
use crate::record::clone_bytes;
use crate::stream::{above_lower, below_upper, is_above_lower, is_below_upper, KeyBound,
    KeyBoundView};
use crate::timestamp::{compare_keys, key_le, key_lt, lemma_key_lt_asymmetric,
    lemma_key_lt_total, lemma_key_lt_transitive, KeyOrder};

verus! {

/// Smallest and largest user key of a segment, and the file that holds it.
#[derive(Debug, PartialEq, Eq)]
pub struct Scope {
    pub min: Vec<u8>,
    pub max: Vec<u8>,
    pub gen: FileId,
}

/// Mathematical form of a [`Scope`].
pub struct ScopeView {
    pub min: Seq<u8>,
    pub max: Seq<u8>,
    pub gen: FileId,
}

impl View for Scope {
    type V = ScopeView;

    open spec fn view(&self) -> ScopeView {
        ScopeView { min: self.min@, max: self.max@, gen: self.gen }
    }
}

impl Clone for Scope {
    fn clone(&self) -> (copy: Self)
        ensures
            copy@ == self@,
    {
        Scope { min: clone_bytes(&self.min), max: clone_bytes(&self.max), gen: self.gen }
    }
}

/// Whether `key` lies between the ends of the scope.
pub open spec fn scope_contains(scope: ScopeView, key: Seq<u8>) -> bool {
    key_le(scope.min, key) && key_le(key, scope.max)
}

/// Whether two scopes share a key: neither ends before the other begins.
pub open spec fn scopes_overlap(a: ScopeView, b: ScopeView) -> bool {
    key_le(a.min, b.max) && key_le(b.min, a.max)
}

/// Whether the scope reaches into the range `[lower, upper]`: its largest key is
/// not below the range and its smallest not above it.
pub open spec fn scope_meets(scope: ScopeView, lower: KeyBoundView, upper: KeyBoundView) -> bool {
    above_lower(lower, scope.max) && below_upper(upper, scope.min)
}

/// A key of a scope that does not meet a range lies outside the range.
pub proof fn lemma_scope_misses(
    scope: ScopeView,
    lower: KeyBoundView,
    upper: KeyBoundView,
    key: Seq<u8>,
)
    requires
        scope_contains(scope, key),
        !scope_meets(scope, lower, upper),
    ensures
        !(above_lower(lower, key) && below_upper(upper, key)),
{
    if above_lower(lower, key) && !above_lower(lower, scope.max) {
        match lower {
            KeyBoundView::Included(l) => {
                lemma_key_lt_total(l, scope.max);
                if l != key && key != scope.max {
                    lemma_key_lt_transitive(l, key, scope.max);
                }
            },
            KeyBoundView::Excluded(l) => {
                if key != scope.max {
                    lemma_key_lt_transitive(l, key, scope.max);
                }
            },
            KeyBoundView::Unbounded => {},
        }
    }
    if below_upper(upper, key) && !below_upper(upper, scope.min) {
        match upper {
            KeyBoundView::Included(u) => {
                lemma_key_lt_total(scope.min, u);
                if key != u && scope.min != key {
                    lemma_key_lt_transitive(scope.min, key, u);
                }
            },
            KeyBoundView::Excluded(u) => {
                if scope.min != key {
                    lemma_key_lt_transitive(scope.min, key, u);
                }
            },
            KeyBoundView::Unbounded => {},
        }
    }
}

impl Scope {
    /// Whether `key` lies in the scope.
    pub fn contains(&self, key: &Vec<u8>) -> (inside: bool)
        ensures
            inside == scope_contains(self@, key@),
    {
        !matches!(compare_keys(&self.min, key), KeyOrder::Greater) && !matches!(
            compare_keys(key, &self.max),
            KeyOrder::Greater
        )
    }

    /// Whether the scope shares a key with `other`.
    pub fn overlaps(&self, other: &Scope) -> (shared: bool)
        ensures
            shared == scopes_overlap(self@, other@),
    {
        !matches!(compare_keys(&self.min, &other.max), KeyOrder::Greater) && !matches!(
            compare_keys(&other.min, &self.max),
            KeyOrder::Greater
        )
    }

    /// Whether the scope reaches into `[lower, upper]`.
    pub fn meets(&self, lower: &KeyBound, upper: &KeyBound) -> (reaches: bool)
        ensures
            reaches == scope_meets(self@, lower@, upper@),
    {
        is_above_lower(lower, &self.max) && is_below_upper(upper, &self.min)
    }
}

} // verus!
