//! Diff scores: a whole-number measure of how far apart two values of the
//! same shape are.
//!
//! A score of zero means "no difference found"; larger scores mean more
//! dissimilarity. Scores are unnormalized and additive: the score of a
//! container or of a composite value is a (weighted) sum of the scores of
//! its parts. Every executable scorer returns the exact score of its model,
//! clamped to `u64::MAX` where the exact score does not fit.
//!
//! Scores, weights and penalties are whole numbers. A weight that is a
//! fraction is expressed by scaling all weights by a common factor.
use vstd::prelude::*;

pub mod composite;
pub mod config;
pub mod impls;
pub mod impls_iter;
pub mod keys;
pub mod ordered;
pub mod ordered_laws;
pub mod score;
pub mod tree;
pub mod unordered;
pub mod with;

verus! {

/// A value that can be compared with another value of the same type to give a
/// diff score, and that has a cost when it has no counterpart at all.
///
/// The two `*_model` functions are the mathematical meaning of the type's
/// scorer. The executable methods compute them, clamped to the range of `u64`.
pub trait DiffScore {
    /// The exact diff score between `self` and `other`.
    spec fn diff_model(&self, other: &Self) -> nat;

    /// The exact cost charged for `self` when it is absent from the other side.
    spec fn missing_model(&self) -> nat;

    /// A value never differs from itself.
    proof fn lemma_identity(&self)
        ensures
            self.diff_model(self) == 0,
    ;

    /// Computes the diff score between `self` and `other`.
    fn diff_score(&self, other: &Self) -> (score: u64)
        ensures
            score == score::saturate(self.diff_model(other)),
    ;

    /// Computes the cost charged for `self` when it has no counterpart.
    fn missing_score(&self) -> (score: u64)
        ensures
            score == score::saturate(self.missing_model()),
    ;
}

/// A scorer that gives the same score whichever of the two values comes first.
///
/// The scorers of atomic values, of optional values and of unordered and keyed
/// collections are symmetric. The alignment of ordered collections is greedy
/// and is not.
pub trait SymmetricScore: DiffScore {
    /// The score does not depend on the order of the two values.
    proof fn lemma_symmetric(&self, other: &Self)
        ensures
            self.diff_model(other) == other.diff_model(self),
    ;
}

} // verus!
