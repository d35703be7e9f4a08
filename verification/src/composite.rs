//! The scorers of composite values: a product type scores the weighted sum of
//! its members' scores, a sum type scores its active case as a product, or a
//! fixed penalty where the two values are of different cases.
//!
//! The sum is not divided by the total weight: scores stay additive across
//! nesting and are not bounded.
use vstd::prelude::*;
use crate::config::{ConfigurationError, MemberSpec, Mode};
use crate::score::{add_scores, exact_scores, lemma_saturate_mul, saturate, scale_score};

verus! {

/// The penalty for two values of different cases, unless the caller says otherwise.
pub const DEFAULT_MISMATCH_PENALTY: u64 = 1;

/// The sum of the first `n` scores, each multiplied by its weight.
pub open spec fn weighted_sum_to(weights: Seq<nat>, scores: Seq<nat>, n: int) -> nat
    decreases n,
{
    if n <= 0 {
        0
    } else {
        weighted_sum_to(weights, scores, n - 1) + weights[n - 1] * scores[n - 1]
    }
}

/// The score of a product type: the sum of its members' scores, each
/// multiplied by the member's weight.
pub open spec fn weighted_sum(weights: Seq<nat>, scores: Seq<nat>) -> nat {
    weighted_sum_to(weights, scores, weights.len() as int)
}

/// The weights of a list of members.
pub open spec fn weights_of(members: Seq<MemberSpec>) -> Seq<nat> {
    Seq::new(members.len(), |i: int| members[i].weight_model())
}

/// Clamping the members' scores before weighting them does not change the clamped sum.
pub proof fn lemma_weighted_sum_clamped(weights: Seq<nat>, scores: Seq<nat>, n: int)
    requires
        n <= weights.len(),
        n <= scores.len(),
    ensures
        saturate(weighted_sum_to(weights, scores, n)) == saturate(
            weighted_sum_to(
                weights,
                Seq::new(scores.len(), |i: int| saturate(scores[i]) as nat),
                n,
            ),
        ),
    decreases n,
{
    if n > 0 {
        lemma_weighted_sum_clamped(weights, scores, n - 1);
        lemma_saturate_mul(weights[n - 1], scores[n - 1]);
    }
}

/// Changing the score of one member changes the sum by the change times the member's weight.
pub proof fn lemma_weighted_sum_update(
    weights: Seq<nat>,
    scores: Seq<nat>,
    n: int,
    member: int,
    score: nat,
)
    requires
        0 <= member < scores.len(),
        n <= weights.len(),
        n <= scores.len(),
    ensures
        weighted_sum_to(weights, scores.update(member, score), n) + (if member < n {
            weights[member] * scores[member]
        } else {
            0
        }) == weighted_sum_to(weights, scores, n) + (if member < n {
            weights[member] * score
        } else {
            0
        }),
    decreases n,
{
    if n > 0 {
        lemma_weighted_sum_update(weights, scores, n - 1, member, score);
    }
}

/// A sum in which every member's score is zero is zero.
pub proof fn lemma_weighted_sum_of_zeros(weights: Seq<nat>, scores: Seq<nat>, n: int)
    requires
        n <= weights.len(),
        n <= scores.len(),
        forall|i: int| 0 <= i < n ==> scores[i] == 0,
    ensures
        weighted_sum_to(weights, scores, n) == 0,
    decreases n,
{
    if n > 0 {
        lemma_weighted_sum_of_zeros(weights, scores, n - 1);
        assert(weights[n - 1] * scores[n - 1] == 0) by (nonlinear_arith)
            requires
                scores[n - 1] == 0,
        ;
    }
}

/// The scorer of a product type: a fixed list of members, each with its weight and mode.
pub struct ProductScorer {
    members: Vec<MemberSpec>,
}

impl ProductScorer {
    /// The members, in the order in which their scores are given.
    pub closed spec fn members(&self) -> Seq<MemberSpec> {
        self.members@
    }

    /// A scorer for the given members.
    pub fn new(members: Vec<MemberSpec>) -> (made: ProductScorer)
        ensures
            made.members() == members@,
    {
        ProductScorer { members }
    }

    /// A scorer for members given by their weights and modes, in order. It
    /// is refused where a weight is below zero.
    pub fn configure(members: &[(i64, Mode)]) -> (made: Result<ProductScorer, ConfigurationError>)
        ensures
            made is Err <==> exists|i: int| 0 <= i < members.len() && (#[trigger] members[i]).0 < 0,
            made matches Err(error) ==> error == ConfigurationError::NegativeWeight,
            made matches Ok(scorer) ==> {
                &&& scorer.members().len() == members.len()
                &&& forall|i: int|
                    0 <= i < members.len() ==> {
                        &&& (#[trigger] scorer.members()[i]).weight_model() == members[i].0
                        &&& scorer.members()[i].mode_model() == members[i].1
                    }
            },
    {
        let mut checked: Vec<MemberSpec> = Vec::new();
        let mut i: usize = 0;
        while i < members.len()
            invariant
                i <= members.len(),
                checked.len() == i,
                forall|k: int| 0 <= k < i ==> (#[trigger] members[k]).0 >= 0,
                forall|k: int|
                    0 <= k < i ==> {
                        &&& (#[trigger] checked[k]).weight_model() == members[k].0
                        &&& checked[k].mode_model() == members[k].1
                    },
            decreases members.len() - i,
        {
            match MemberSpec::new(members[i].0, members[i].1) {
                Ok(spec) => {
                    checked.push(spec);
                },
                Err(error) => {
                    return Err(error);
                },
            }
            i += 1;
        }
        Ok(ProductScorer { members: checked })
    }

    /// The number of members.
    pub fn len(&self) -> (len: usize)
        ensures
            len == self.members().len(),
    {
        self.members.len()
    }

    /// The configuration of member `i`.
    pub fn member(&self, i: usize) -> (spec: MemberSpec)
        requires
            i < self.members().len(),
        ensures
            spec == self.members()[i as int],
    {
        self.members[i]
    }

    /// Computes the score of the product from the score of every member, as
    /// [`MemberSpec::member_score`] gives it.
    pub fn score(&self, member_scores: &[u64]) -> (score: u64)
        requires
            member_scores.len() == self.members().len(),
        ensures
            score == saturate(
                weighted_sum(weights_of(self.members()), exact_scores(member_scores@)),
            ),
    {
        let ghost weights = weights_of(self.members());
        let ghost scores = exact_scores(member_scores@);
        let mut total: u64 = 0;
        let mut i: usize = 0;
        while i < self.members.len()
            invariant
                i <= self.members.len(),
                member_scores.len() == self.members.len(),
                weights == weights_of(self.members()),
                scores == exact_scores(member_scores@),
                total == saturate(weighted_sum_to(weights, scores, i as int)),
            decreases self.members.len() - i,
        {
            let weighted = scale_score(self.members[i].weight(), member_scores[i]);
            total = add_scores(total, weighted);
            i += 1;
        }
        total
    }
}

/// The scorer of a sum type: one product of members for each case, and the
/// penalty for two values of different cases.
pub struct SumScorer {
    cases: Vec<ProductScorer>,
    mismatch_penalty: u64,
}

impl SumScorer {
    /// The cases, in the order of their tags.
    pub closed spec fn cases(&self) -> Seq<ProductScorer> {
        self.cases@
    }

    /// The score of two values of different cases.
    pub closed spec fn penalty_model(&self) -> nat {
        self.mismatch_penalty as nat
    }

    /// A scorer for the given cases, with a mismatch penalty of one.
    pub fn new(cases: Vec<ProductScorer>) -> (made: SumScorer)
        ensures
            made.cases() == cases@,
            made.penalty_model() == DEFAULT_MISMATCH_PENALTY,
    {
        SumScorer { cases, mismatch_penalty: DEFAULT_MISMATCH_PENALTY }
    }

    /// The same scorer with another mismatch penalty; a penalty below zero is refused.
    pub fn with_mismatch_penalty(self, penalty: i64) -> (made: Result<
        SumScorer,
        ConfigurationError,
    >)
        ensures
            penalty < 0 <==> made is Err,
            made matches Err(error) ==> error == ConfigurationError::NegativeMismatchPenalty,
            made matches Ok(scorer) ==> scorer.cases() == self.cases() && scorer.penalty_model()
                == penalty,
    {
        if penalty < 0 {
            Err(ConfigurationError::NegativeMismatchPenalty)
        } else {
            Ok(SumScorer { cases: self.cases, mismatch_penalty: penalty as u64 })
        }
    }

    /// The number of cases.
    pub fn len(&self) -> (len: usize)
        ensures
            len == self.cases().len(),
    {
        self.cases.len()
    }

    /// The score of two values of different cases.
    pub fn mismatch_penalty(&self) -> (penalty: u64)
        ensures
            penalty == self.penalty_model(),
    {
        self.mismatch_penalty
    }

    /// Computes the score of two values, of the cases `case_a` and `case_b`:
    /// the mismatch penalty where the cases differ, whatever the values hold,
    /// and else the score of the case as a product of its members.
    pub fn score(&self, case_a: usize, case_b: usize, member_scores: &[u64]) -> (score: u64)
        requires
            case_a == case_b ==> case_a < self.cases().len() && member_scores.len()
                == self.cases()[case_a as int].members().len(),
        ensures
            case_a != case_b ==> score == self.penalty_model(),
            case_a == case_b ==> score == saturate(
                weighted_sum(
                    weights_of(self.cases()[case_a as int].members()),
                    exact_scores(member_scores@),
                ),
            ),
    {
        if case_a != case_b {
            self.mismatch_penalty
        } else {
            self.cases[case_a].score(member_scores)
        }
    }
}

} // verus!
