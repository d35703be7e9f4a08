//! Scorers of atomic values and of the wrappers that score as what they hold.
use vstd::prelude::*;
use std::rc::Rc;
use std::sync::Arc;
use crate::{DiffScore, SymmetricScore};
use crate::score::{saturate, DEFAULT_MISSING_SCORE};

verus! {

/// The score of the equality scorer: zero for equal values, one otherwise.
pub open spec fn equality_model<T>(a: T, b: T) -> nat {
    if a == b {
        0
    } else {
        1
    }
}

/// The score of the magnitude scorer: the distance between two numbers.
pub open spec fn magnitude_model(a: int, b: int) -> nat {
    if a >= b {
        (a - b) as nat
    } else {
        (b - a) as nat
    }
}

/// The clamped distance between two unsigned numbers.
pub fn unsigned_magnitude(a: u128, b: u128) -> (score: u64)
    ensures
        score == saturate(magnitude_model(a as int, b as int)),
{
    let distance: u128 = if a >= b {
        a - b
    } else {
        b - a
    };
    if distance >= u64::MAX as u128 {
        u64::MAX
    } else {
        distance as u64
    }
}

/// The clamped distance between two signed numbers.
pub fn signed_magnitude(a: i128, b: i128) -> (score: u64)
    ensures
        score == saturate(magnitude_model(a as int, b as int)),
{
    let (high, low) = if a >= b {
        (a, b)
    } else {
        (b, a)
    };
    if low >= 0 {
        unsigned_magnitude(high as u128, low as u128)
    } else if high < 0 {
        unsigned_magnitude((high - low) as u128, 0)
    } else {
        // `low` is negative and `high` is not: count up from `low` to -1, then to `high`.
        let below: u128 = (-(low + 1)) as u128;
        let distance: u128 = high as u128 + below + 1;
        unsigned_magnitude(distance, 0)
    }
}

impl DiffScore for bool {
    open spec fn diff_model(&self, other: &Self) -> nat {
        equality_model(*self, *other)
    }

    open spec fn missing_model(&self) -> nat {
        DEFAULT_MISSING_SCORE as nat
    }

    proof fn lemma_identity(&self) {
    }

    fn diff_score(&self, other: &Self) -> (score: u64) {
        if *self == *other {
            0
        } else {
            1
        }
    }

    fn missing_score(&self) -> (score: u64) {
        DEFAULT_MISSING_SCORE
    }
}

impl DiffScore for char {
    open spec fn diff_model(&self, other: &Self) -> nat {
        equality_model(*self, *other)
    }

    open spec fn missing_model(&self) -> nat {
        DEFAULT_MISSING_SCORE as nat
    }

    proof fn lemma_identity(&self) {
    }

    fn diff_score(&self, other: &Self) -> (score: u64) {
        if *self == *other {
            0
        } else {
            1
        }
    }

    fn missing_score(&self) -> (score: u64) {
        DEFAULT_MISSING_SCORE
    }
}

impl DiffScore for u8 {
    open spec fn diff_model(&self, other: &Self) -> nat {
        magnitude_model(*self as int, *other as int)
    }

    open spec fn missing_model(&self) -> nat {
        DEFAULT_MISSING_SCORE as nat
    }

    proof fn lemma_identity(&self) {
    }

    fn diff_score(&self, other: &Self) -> (score: u64) {
        unsigned_magnitude(*self as u128, *other as u128)
    }

    fn missing_score(&self) -> (score: u64) {
        DEFAULT_MISSING_SCORE
    }
}

impl DiffScore for u16 {
    open spec fn diff_model(&self, other: &Self) -> nat {
        magnitude_model(*self as int, *other as int)
    }

    open spec fn missing_model(&self) -> nat {
        DEFAULT_MISSING_SCORE as nat
    }

    proof fn lemma_identity(&self) {
    }

    fn diff_score(&self, other: &Self) -> (score: u64) {
        unsigned_magnitude(*self as u128, *other as u128)
    }

    fn missing_score(&self) -> (score: u64) {
        DEFAULT_MISSING_SCORE
    }
}

impl DiffScore for u32 {
    open spec fn diff_model(&self, other: &Self) -> nat {
        magnitude_model(*self as int, *other as int)
    }

    open spec fn missing_model(&self) -> nat {
        DEFAULT_MISSING_SCORE as nat
    }

    proof fn lemma_identity(&self) {
    }

    fn diff_score(&self, other: &Self) -> (score: u64) {
        unsigned_magnitude(*self as u128, *other as u128)
    }

    fn missing_score(&self) -> (score: u64) {
        DEFAULT_MISSING_SCORE
    }
}

impl DiffScore for u64 {
    open spec fn diff_model(&self, other: &Self) -> nat {
        magnitude_model(*self as int, *other as int)
    }

    open spec fn missing_model(&self) -> nat {
        DEFAULT_MISSING_SCORE as nat
    }

    proof fn lemma_identity(&self) {
    }

    fn diff_score(&self, other: &Self) -> (score: u64) {
        unsigned_magnitude(*self as u128, *other as u128)
    }

    fn missing_score(&self) -> (score: u64) {
        DEFAULT_MISSING_SCORE
    }
}

impl DiffScore for usize {
    open spec fn diff_model(&self, other: &Self) -> nat {
        magnitude_model(*self as int, *other as int)
    }

    open spec fn missing_model(&self) -> nat {
        DEFAULT_MISSING_SCORE as nat
    }

    proof fn lemma_identity(&self) {
    }

    fn diff_score(&self, other: &Self) -> (score: u64) {
        unsigned_magnitude(*self as u128, *other as u128)
    }

    fn missing_score(&self) -> (score: u64) {
        DEFAULT_MISSING_SCORE
    }
}

impl DiffScore for u128 {
    open spec fn diff_model(&self, other: &Self) -> nat {
        magnitude_model(*self as int, *other as int)
    }

    open spec fn missing_model(&self) -> nat {
        DEFAULT_MISSING_SCORE as nat
    }

    proof fn lemma_identity(&self) {
    }

    fn diff_score(&self, other: &Self) -> (score: u64) {
        unsigned_magnitude(*self, *other)
    }

    fn missing_score(&self) -> (score: u64) {
        DEFAULT_MISSING_SCORE
    }
}

impl DiffScore for i8 {
    open spec fn diff_model(&self, other: &Self) -> nat {
        magnitude_model(*self as int, *other as int)
    }

    open spec fn missing_model(&self) -> nat {
        DEFAULT_MISSING_SCORE as nat
    }

    proof fn lemma_identity(&self) {
    }

    fn diff_score(&self, other: &Self) -> (score: u64) {
        signed_magnitude(*self as i128, *other as i128)
    }

    fn missing_score(&self) -> (score: u64) {
        DEFAULT_MISSING_SCORE
    }
}

impl DiffScore for i16 {
    open spec fn diff_model(&self, other: &Self) -> nat {
        magnitude_model(*self as int, *other as int)
    }

    open spec fn missing_model(&self) -> nat {
        DEFAULT_MISSING_SCORE as nat
    }

    proof fn lemma_identity(&self) {
    }

    fn diff_score(&self, other: &Self) -> (score: u64) {
        signed_magnitude(*self as i128, *other as i128)
    }

    fn missing_score(&self) -> (score: u64) {
        DEFAULT_MISSING_SCORE
    }
}

impl DiffScore for i32 {
    open spec fn diff_model(&self, other: &Self) -> nat {
        magnitude_model(*self as int, *other as int)
    }

    open spec fn missing_model(&self) -> nat {
        DEFAULT_MISSING_SCORE as nat
    }

    proof fn lemma_identity(&self) {
    }

    fn diff_score(&self, other: &Self) -> (score: u64) {
        signed_magnitude(*self as i128, *other as i128)
    }

    fn missing_score(&self) -> (score: u64) {
        DEFAULT_MISSING_SCORE
    }
}

impl DiffScore for i64 {
    open spec fn diff_model(&self, other: &Self) -> nat {
        magnitude_model(*self as int, *other as int)
    }

    open spec fn missing_model(&self) -> nat {
        DEFAULT_MISSING_SCORE as nat
    }

    proof fn lemma_identity(&self) {
    }

    fn diff_score(&self, other: &Self) -> (score: u64) {
        signed_magnitude(*self as i128, *other as i128)
    }

    fn missing_score(&self) -> (score: u64) {
        DEFAULT_MISSING_SCORE
    }
}

impl DiffScore for isize {
    open spec fn diff_model(&self, other: &Self) -> nat {
        magnitude_model(*self as int, *other as int)
    }

    open spec fn missing_model(&self) -> nat {
        DEFAULT_MISSING_SCORE as nat
    }

    proof fn lemma_identity(&self) {
    }

    fn diff_score(&self, other: &Self) -> (score: u64) {
        signed_magnitude(*self as i128, *other as i128)
    }

    fn missing_score(&self) -> (score: u64) {
        DEFAULT_MISSING_SCORE
    }
}

impl DiffScore for i128 {
    open spec fn diff_model(&self, other: &Self) -> nat {
        magnitude_model(*self as int, *other as int)
    }

    open spec fn missing_model(&self) -> nat {
        DEFAULT_MISSING_SCORE as nat
    }

    proof fn lemma_identity(&self) {
    }

    fn diff_score(&self, other: &Self) -> (score: u64) {
        signed_magnitude(*self, *other)
    }

    fn missing_score(&self) -> (score: u64) {
        DEFAULT_MISSING_SCORE
    }
}

impl<T: DiffScore> DiffScore for Option<T> {
    open spec fn diff_model(&self, other: &Self) -> nat {
        match (*self, *other) {
            (Some(a), Some(b)) => a.diff_model(&b),
            (None, None) => 0,
            _ => 1,
        }
    }

    open spec fn missing_model(&self) -> nat {
        DEFAULT_MISSING_SCORE as nat
    }

    proof fn lemma_identity(&self) {
        if let Some(a) = *self {
            a.lemma_identity();
        }
    }

    fn diff_score(&self, other: &Self) -> (score: u64) {
        match (self, other) {
            (Some(a), Some(b)) => a.diff_score(b),
            (None, None) => 0,
            (_, _) => 1,
        }
    }

    fn missing_score(&self) -> (score: u64) {
        DEFAULT_MISSING_SCORE
    }
}

impl<T: DiffScore, E: DiffScore> DiffScore for Result<T, E> {
    open spec fn diff_model(&self, other: &Self) -> nat {
        match (*self, *other) {
            (Ok(a), Ok(b)) => a.diff_model(&b),
            (Err(a), Err(b)) => a.diff_model(&b),
            _ => 1,
        }
    }

    open spec fn missing_model(&self) -> nat {
        DEFAULT_MISSING_SCORE as nat
    }

    proof fn lemma_identity(&self) {
        match *self {
            Ok(a) => a.lemma_identity(),
            Err(a) => a.lemma_identity(),
        }
    }

    fn diff_score(&self, other: &Self) -> (score: u64) {
        match (self, other) {
            (Ok(a), Ok(b)) => a.diff_score(b),
            (Err(a), Err(b)) => a.diff_score(b),
            (_, _) => 1,
        }
    }

    fn missing_score(&self) -> (score: u64) {
        DEFAULT_MISSING_SCORE
    }
}

impl<T: DiffScore> DiffScore for Box<T> {
    open spec fn diff_model(&self, other: &Self) -> nat {
        (**self).diff_model(&**other)
    }

    open spec fn missing_model(&self) -> nat {
        (**self).missing_model()
    }

    proof fn lemma_identity(&self) {
        (**self).lemma_identity();
    }

    fn diff_score(&self, other: &Self) -> (score: u64) {
        (**self).diff_score(&**other)
    }

    fn missing_score(&self) -> (score: u64) {
        (**self).missing_score()
    }
}

impl<T: DiffScore> DiffScore for Rc<T> {
    open spec fn diff_model(&self, other: &Self) -> nat {
        (**self).diff_model(&**other)
    }

    open spec fn missing_model(&self) -> nat {
        (**self).missing_model()
    }

    proof fn lemma_identity(&self) {
        (**self).lemma_identity();
    }

    fn diff_score(&self, other: &Self) -> (score: u64) {
        (**self).diff_score(&**other)
    }

    fn missing_score(&self) -> (score: u64) {
        (**self).missing_score()
    }
}

impl<T: DiffScore> DiffScore for Arc<T> {
    open spec fn diff_model(&self, other: &Self) -> nat {
        (**self).diff_model(&**other)
    }

    open spec fn missing_model(&self) -> nat {
        (**self).missing_model()
    }

    proof fn lemma_identity(&self) {
        (**self).lemma_identity();
    }

    fn diff_score(&self, other: &Self) -> (score: u64) {
        (**self).diff_score(&**other)
    }

    fn missing_score(&self) -> (score: u64) {
        (**self).missing_score()
    }
}

impl<T: DiffScore> DiffScore for &T {
    open spec fn diff_model(&self, other: &Self) -> nat {
        (**self).diff_model(&**other)
    }

    open spec fn missing_model(&self) -> nat {
        (**self).missing_model()
    }

    proof fn lemma_identity(&self) {
        (**self).lemma_identity();
    }

    fn diff_score(&self, other: &Self) -> (score: u64) {
        (**self).diff_score(&**other)
    }

    fn missing_score(&self) -> (score: u64) {
        (**self).missing_score()
    }
}

impl SymmetricScore for bool {
    proof fn lemma_symmetric(&self, other: &Self) {
    }
}

impl SymmetricScore for char {
    proof fn lemma_symmetric(&self, other: &Self) {
    }
}

impl SymmetricScore for u8 {
    proof fn lemma_symmetric(&self, other: &Self) {
    }
}

impl SymmetricScore for u16 {
    proof fn lemma_symmetric(&self, other: &Self) {
    }
}

impl SymmetricScore for u32 {
    proof fn lemma_symmetric(&self, other: &Self) {
    }
}

impl SymmetricScore for u64 {
    proof fn lemma_symmetric(&self, other: &Self) {
    }
}

impl SymmetricScore for usize {
    proof fn lemma_symmetric(&self, other: &Self) {
    }
}

impl SymmetricScore for u128 {
    proof fn lemma_symmetric(&self, other: &Self) {
    }
}

impl SymmetricScore for i8 {
    proof fn lemma_symmetric(&self, other: &Self) {
    }
}

impl SymmetricScore for i16 {
    proof fn lemma_symmetric(&self, other: &Self) {
    }
}

impl SymmetricScore for i32 {
    proof fn lemma_symmetric(&self, other: &Self) {
    }
}

impl SymmetricScore for i64 {
    proof fn lemma_symmetric(&self, other: &Self) {
    }
}

impl SymmetricScore for isize {
    proof fn lemma_symmetric(&self, other: &Self) {
    }
}

impl SymmetricScore for i128 {
    proof fn lemma_symmetric(&self, other: &Self) {
    }
}

impl<T: SymmetricScore> SymmetricScore for Option<T> {
    proof fn lemma_symmetric(&self, other: &Self) {
        if let (Some(a), Some(b)) = (*self, *other) {
            a.lemma_symmetric(&b);
        }
    }
}

impl<T: SymmetricScore, E: SymmetricScore> SymmetricScore for Result<T, E> {
    proof fn lemma_symmetric(&self, other: &Self) {
        match (*self, *other) {
            (Ok(a), Ok(b)) => a.lemma_symmetric(&b),
            (Err(a), Err(b)) => a.lemma_symmetric(&b),
            _ => {},
        }
    }
}

impl<T: SymmetricScore> SymmetricScore for Box<T> {
    proof fn lemma_symmetric(&self, other: &Self) {
        (**self).lemma_symmetric(&**other);
    }
}

impl<T: SymmetricScore> SymmetricScore for Rc<T> {
    proof fn lemma_symmetric(&self, other: &Self) {
        (**self).lemma_symmetric(&**other);
    }
}

impl<T: SymmetricScore> SymmetricScore for Arc<T> {
    proof fn lemma_symmetric(&self, other: &Self) {
        (**self).lemma_symmetric(&**other);
    }
}

impl<T: SymmetricScore> SymmetricScore for &T {
    proof fn lemma_symmetric(&self, other: &Self) {
        (**self).lemma_symmetric(&**other);
    }
}

} // verus!
