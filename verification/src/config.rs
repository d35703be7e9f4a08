//! The static configuration of scorers, checked once when it is given.
use vstd::prelude::*;
use vstd::std_specs::cmp::PartialEqSpec;
use crate::DiffScore;
use crate::impls_iter::{
    diff_score_ordered, ordered_items_model, DEFAULT_MATCH_WINDOW, DEFAULT_ORDER_PENALTY,
};
use crate::score::saturate;

verus! {

/// What is wrong with a configuration.
#[derive(Clone, Copy, Debug, PartialEq, Eq)]
pub enum ConfigurationError {
    /// A member was given a weight below zero.
    NegativeWeight,
    /// A sum type was given a mismatch penalty below zero.
    NegativeMismatchPenalty,
    /// A window was given an order penalty below zero.
    NegativeOrderPenalty,
}

impl ConfigurationError {
    /// What is wrong, in words.
    pub fn message(&self) -> (text: &'static str)
        ensures
            text@ == match *self {
                ConfigurationError::NegativeWeight => "the weight of a member is below zero"@,
                ConfigurationError::NegativeMismatchPenalty =>
                    "the mismatch penalty is below zero"@,
                ConfigurationError::NegativeOrderPenalty => "the order penalty is below zero"@,
            },
    {
        match self {
            ConfigurationError::NegativeWeight => "the weight of a member is below zero",
            ConfigurationError::NegativeMismatchPenalty => "the mismatch penalty is below zero",
            ConfigurationError::NegativeOrderPenalty => "the order penalty is below zero",
        }
    }
}

/// How a member of a composite value is compared.
#[derive(Clone, Copy, Debug, PartialEq, Eq)]
pub enum Mode {
    /// By the member's own scorer.
    Recurse,
    /// By equality alone: zero for equal members, one otherwise.
    EqualityOnly,
}

/// The exact score of a member before weighting: the diff score of the two
/// values by their own scorer, or zero for equal values and one otherwise.
pub open spec fn member_model<T: DiffScore + PartialEq>(mode: Mode, a: T, b: T) -> nat {
    match mode {
        Mode::Recurse => a.diff_model(&b),
        Mode::EqualityOnly => if a.eq_spec(&b) {
            0
        } else {
            1
        },
    }
}

/// The configuration of one member of a composite value.
#[derive(Clone, Copy, Debug)]
pub struct MemberSpec {
    weight: u64,
    mode: Mode,
}

impl MemberSpec {
    /// The weight that multiplies the member's score.
    pub closed spec fn weight_model(&self) -> nat {
        self.weight as nat
    }

    /// How the member is compared.
    pub closed spec fn mode_model(&self) -> Mode {
        self.mode
    }

    /// A member with the given weight and mode; a weight below zero is refused.
    pub fn new(weight: i64, mode: Mode) -> (made: Result<MemberSpec, ConfigurationError>)
        ensures
            weight < 0 <==> made == Err::<MemberSpec, ConfigurationError>(
                ConfigurationError::NegativeWeight,
            ),
            weight >= 0 <==> made is Ok,
            made matches Ok(spec) ==> spec.weight_model() == weight && spec.mode_model() == mode,
    {
        if weight < 0 {
            Err(ConfigurationError::NegativeWeight)
        } else {
            Ok(MemberSpec { weight: weight as u64, mode })
        }
    }

    /// The weight that multiplies the member's score.
    pub fn weight(&self) -> (weight: u64)
        ensures
            weight == self.weight_model(),
    {
        self.weight
    }

    /// How the member is compared.
    pub fn mode(&self) -> (mode: Mode)
        ensures
            mode == self.mode_model(),
    {
        self.mode
    }

    /// The score of the member before weighting: by the member's own scorer,
    /// or by equality alone, as the mode says. The scorer of the member is
    /// not run where equality alone decides.
    pub fn member_score<T: DiffScore + PartialEq>(&self, a: &T, b: &T) -> (score: u64)
        ensures
            self.mode_model() is Recurse || T::obeys_eq_spec() ==> score == saturate(
                member_model(self.mode_model(), *a, *b),
            ),
            self.mode_model() is EqualityOnly ==> score <= 1,
    {
        match self.mode {
            Mode::Recurse => a.diff_score(b),
            Mode::EqualityOnly => crate::with::eq(a, b),
        }
    }
}

impl Default for MemberSpec {
    /// A member of weight one that is compared by its own scorer.
    fn default() -> (made: MemberSpec)
        ensures
            made.weight_model() == 1,
            made.mode_model() == Mode::Recurse,
    {
        MemberSpec { weight: 1, mode: Mode::Recurse }
    }
}

/// The configuration of the alignment of ordered collections.
#[derive(Clone, Copy, Debug)]
pub struct WindowConfig {
    match_window: usize,
    order_penalty: u64,
}

impl WindowConfig {
    /// How far apart two paired items may stand.
    pub closed spec fn window_model(&self) -> nat {
        self.match_window as nat
    }

    /// What each position of drift between two paired items costs.
    pub closed spec fn penalty_model(&self) -> nat {
        self.order_penalty as nat
    }

    /// A window of the given reach and order penalty; a penalty below zero is
    /// refused. A reach of zero pairs items at the same position only.
    pub fn new(match_window: usize, order_penalty: i64) -> (made: Result<
        WindowConfig,
        ConfigurationError,
    >)
        ensures
            order_penalty < 0 <==> made == Err::<WindowConfig, ConfigurationError>(
                ConfigurationError::NegativeOrderPenalty,
            ),
            order_penalty >= 0 <==> made is Ok,
            made matches Ok(config) ==> config.window_model() == match_window
                && config.penalty_model() == order_penalty,
    {
        if order_penalty < 0 {
            Err(ConfigurationError::NegativeOrderPenalty)
        } else {
            Ok(WindowConfig { match_window, order_penalty: order_penalty as u64 })
        }
    }

    /// How far apart two paired items may stand.
    pub fn match_window(&self) -> (window: usize)
        ensures
            window == self.window_model(),
    {
        self.match_window
    }

    /// What each position of drift between two paired items costs.
    pub fn order_penalty(&self) -> (penalty: u64)
        ensures
            penalty == self.penalty_model(),
    {
        self.order_penalty
    }

    /// Computes the diff score of two ordered collections under this configuration.
    pub fn diff_score<T: DiffScore>(&self, a: &[T], b: &[T]) -> (score: u64)
        ensures
            score == saturate(
                ordered_items_model(a@, b@, self.window_model(), self.penalty_model()),
            ),
    {
        diff_score_ordered(a, b, self.match_window, self.order_penalty)
    }
}

impl Default for WindowConfig {
    /// The window that the scorers of vectors and text use: a reach of five
    /// positions and an order penalty of one.
    fn default() -> (made: WindowConfig)
        ensures
            made.window_model() == DEFAULT_MATCH_WINDOW,
            made.penalty_model() == DEFAULT_ORDER_PENALTY,
    {
        WindowConfig { match_window: DEFAULT_MATCH_WINDOW, order_penalty: DEFAULT_ORDER_PENALTY }
    }
}

} // verus!
