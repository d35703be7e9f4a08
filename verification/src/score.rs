//! Score arithmetic: exact sums and products in the models, clamped 64-bit
//! arithmetic in the executable code.
use vstd::prelude::*;

verus! {

/// The cost charged for a value that has no counterpart, unless its type says otherwise.
pub const DEFAULT_MISSING_SCORE: u64 = 1;

/// The executable representation of an exact score: the score itself where it
/// fits in 64 bits, and `u64::MAX` where it does not.
pub open spec fn saturate(n: nat) -> u64 {
    if n >= u64::MAX {
        u64::MAX
    } else {
        n as u64
    }
}

/// Each number of a sequence of machine scores, read as an exact score.
pub open spec fn exact_scores(scores: Seq<u64>) -> Seq<nat> {
    Seq::new(scores.len(), |i: int| scores[i] as nat)
}

/// Clamping the two terms of a sum before adding them does not change the clamped sum.
pub proof fn lemma_saturate_add(x: nat, y: nat)
    ensures
        saturate(x + y) == saturate(saturate(x) as nat + saturate(y) as nat),
{
}

/// Clamping a score before weighting it does not change the clamped product.
pub proof fn lemma_saturate_mul(weight: nat, x: nat)
    ensures
        saturate(weight * x) == saturate(weight * (saturate(x) as nat)),
{
    if x >= u64::MAX {
        if weight == 0 {
            assert(weight * x == 0) by (nonlinear_arith)
                requires
                    weight == 0,
            ;
            assert(weight * (saturate(x) as nat) == 0) by (nonlinear_arith)
                requires
                    weight == 0,
            ;
        } else {
            assert(weight * x >= x) by (nonlinear_arith)
                requires
                    weight >= 1,
            ;
            let clamped: nat = saturate(x) as nat;
            assert(weight * clamped >= clamped) by (nonlinear_arith)
                requires
                    weight >= 1,
            ;
        }
    }
}

/// Adds two scores, clamping the sum to `u64::MAX`.
pub fn add_scores(a: u64, b: u64) -> (sum: u64)
    ensures
        sum == saturate(a as nat + b as nat),
{
    a.saturating_add(b)
}

/// Multiplies a score by a weight, clamping the product to `u64::MAX`.
pub fn scale_score(weight: u64, score: u64) -> (product: u64)
    ensures
        product == saturate(weight as nat * score as nat),
{
    match weight.checked_mul(score) {
        Some(product) => product,
        None => u64::MAX,
    }
}

} // verus!
