//! What holds of the windowed alignment: its score can be computed from
//! clamped costs, a collection aligned with an empty one is charged for all
//! its items, and a collection aligned with itself scores zero exactly where
//! every item keeps its own place.
use vstd::prelude::*;
use crate::ordered::{
    band_end, band_start, best_match, is_banded, is_best, is_candidate, lemma_best_match_is,
    offset, ordered_from, ordered_model, shifted_cost, table_costs, table_holds, unmatched_cost,
};
use crate::score::saturate;

verus! {

/// Whether two cost assignments give every pair of positions that lies
/// within the window the same cost once both are clamped.
pub open spec fn costs_clamp_alike(
    costs1: spec_fn(int, int) -> nat,
    costs2: spec_fn(int, int) -> nat,
    len_a: nat,
    len_b: nat,
    window: nat,
) -> bool {
    forall|i: int, j: int|
        #![trigger costs1(i, j)]
        #![trigger costs2(i, j)]
        0 <= i < len_a && 0 <= j < len_b && offset(i, j) <= window ==> saturate(costs1(i, j))
            == saturate(costs2(i, j))
}

/// Whether two sequences of scores are equal once both are clamped.
pub open spec fn scores_clamp_alike(scores1: Seq<nat>, scores2: Seq<nat>) -> bool {
    &&& scores1.len() == scores2.len()
    &&& forall|i: int|
        #![trigger scores1[i]]
        #![trigger scores2[i]]
        0 <= i < scores1.len() ==> saturate(scores1[i]) == saturate(scores2[i])
}

/// The cost of pairing grows with the diff score of the pair.
proof fn lemma_shifted_cost_bounds(cost: nat, i: int, j: int, penalty: nat)
    ensures
        shifted_cost(cost, i, j, penalty) >= cost,
{
    assert(penalty * offset(i, j) >= 0) by (nonlinear_arith);
}

/// A pairing whose cost fits in 64 bits is chosen under any other cost
/// assignment that is the same once clamped, at the same cost.
proof fn lemma_best_transfers(
    costs1: spec_fn(int, int) -> nat,
    costs2: spec_fn(int, int) -> nat,
    used: Seq<bool>,
    len_a: nat,
    window: nat,
    penalty: nat,
    i: int,
    missing1: nat,
    missing2: nat,
    j: int,
)
    requires
        costs_clamp_alike(costs1, costs2, len_a, used.len(), window),
        0 <= i < len_a,
        saturate(missing1) == saturate(missing2),
        is_best(costs1, used, window, penalty, i, missing1, j),
        shifted_cost(costs1(i, j), i, j, penalty) < u64::MAX,
    ensures
        is_best(costs2, used, window, penalty, i, missing2, j),
        costs2(i, j) == costs1(i, j),
{
    lemma_shifted_cost_bounds(costs1(i, j), i, j, penalty);
    assert(saturate(costs1(i, j)) == saturate(costs2(i, j)));
    assert forall|k: int| #[trigger] is_candidate(used, window, i, k) implies {
        &&& shifted_cost(costs2(i, j), i, j, penalty) <= shifted_cost(costs2(i, k), i, k, penalty)
        &&& k < j ==> shifted_cost(costs2(i, j), i, j, penalty) < shifted_cost(
            costs2(i, k),
            i,
            k,
            penalty,
        )
    } by {
        assert(saturate(costs1(i, k)) == saturate(costs2(i, k)));
        lemma_shifted_cost_bounds(costs2(i, k), i, k, penalty);
    }
}

/// A banded table that holds the clamped costs stands for those costs.
pub proof fn lemma_table_stands_for(
    table: Seq<Vec<u64>>,
    costs: spec_fn(int, int) -> nat,
    len_a: nat,
    len_b: nat,
    window: nat,
)
    requires
        is_banded(table, len_a as int, len_b as int, window as int),
        table_holds(table, costs, len_b as int, window as int),
    ensures
        costs_clamp_alike(
            table_costs(table, len_b as int, window as int),
            costs,
            len_a,
            len_b,
            window,
        ),
{
    let filled = table_costs(table, len_b as int, window as int);
    assert forall|i: int, j: int|
        0 <= i < len_a && 0 <= j < len_b && offset(i, j) <= window implies saturate(
        #[trigger] filled(i, j),
    ) == saturate(costs(i, j)) by {
        let start = band_start(i, len_b as int, window as int);
        assert(start <= j < band_end(i, len_b as int, window as int));
        assert(table[i][j - start] == saturate(costs(i, j)));
    }
    assert forall|i: int, j: int|
        0 <= i < len_a && 0 <= j < len_b && offset(i, j) <= window implies saturate(
        filled(i, j),
    ) == saturate(#[trigger] costs(i, j)) by {
        assert(saturate(filled(i, j)) == saturate(costs(i, j)));
    }
}

/// Clamping the missing costs does not change the clamped charge for what is left unpaired.
proof fn lemma_unmatched_clamped(missing1: Seq<nat>, missing2: Seq<nat>, used: Seq<bool>, n: int)
    requires
        scores_clamp_alike(missing1, missing2),
        n <= missing1.len(),
    ensures
        saturate(unmatched_cost(missing1, used, n)) == saturate(
            unmatched_cost(missing2, used, n),
        ),
    decreases n,
{
    if n > 0 {
        lemma_unmatched_clamped(missing1, missing2, used, n - 1);
        assert(saturate(missing1[n - 1]) == saturate(missing2[n - 1]));
    }
}

/// The alignment total from position `i` on is the same, once clamped, under
/// any two cost assignments that are the same once clamped.
pub proof fn lemma_ordered_from_clamped(
    costs1: spec_fn(int, int) -> nat,
    costs2: spec_fn(int, int) -> nat,
    missing_a1: Seq<nat>,
    missing_a2: Seq<nat>,
    missing_b1: Seq<nat>,
    missing_b2: Seq<nat>,
    window: nat,
    penalty: nat,
    i: nat,
    used: Seq<bool>,
)
    requires
        costs_clamp_alike(costs1, costs2, missing_a1.len(), missing_b1.len(), window),
        scores_clamp_alike(missing_a1, missing_a2),
        scores_clamp_alike(missing_b1, missing_b2),
        used.len() == missing_b1.len(),
    ensures
        saturate(ordered_from(costs1, missing_a1, missing_b1, window, penalty, i, used))
            == saturate(ordered_from(costs2, missing_a2, missing_b2, window, penalty, i, used)),
    decreases missing_a1.len() - i,
{
    if i >= missing_a1.len() {
        lemma_unmatched_clamped(missing_b1, missing_b2, used, missing_b1.len() as int);
    } else {
        let at = i as int;
        let m1 = missing_a1[at];
        let m2 = missing_a2[at];
        assert(saturate(m1) == saturate(m2));
        let best1 = best_match(costs1, used, window, penalty, at, m1);
        let best2 = best_match(costs2, used, window, penalty, at, m2);
        let total1 = ordered_from(costs1, missing_a1, missing_b1, window, penalty, i, used);
        let total2 = ordered_from(costs2, missing_a2, missing_b2, window, penalty, i, used);
        // A pairing that fits in 64 bits on one side is the pairing on the other side too.
        if let Some(j1) = best1 {
            if shifted_cost(costs1(at, j1), at, j1, penalty) < u64::MAX {
                lemma_best_transfers(
                    costs1,
                    costs2,
                    used,
                    missing_a1.len(),
                    window,
                    penalty,
                    at,
                    m1,
                    m2,
                    j1,
                );
                lemma_best_match_is(costs2, used, window, penalty, at, m2, j1);
            }
        }
        if let Some(j2) = best2 {
            if shifted_cost(costs2(at, j2), at, j2, penalty) < u64::MAX {
                lemma_best_transfers(
                    costs2,
                    costs1,
                    used,
                    missing_a1.len(),
                    window,
                    penalty,
                    at,
                    m2,
                    m1,
                    j2,
                );
                lemma_best_match_is(costs1, used, window, penalty, at, m1, j2);
            }
        }
        match best1 {
            Some(j1) => {
                if shifted_cost(costs1(at, j1), at, j1, penalty) < u64::MAX {
                    assert(best2 == Some(j1));
                    lemma_ordered_from_clamped(
                        costs1,
                        costs2,
                        missing_a1,
                        missing_a2,
                        missing_b1,
                        missing_b2,
                        window,
                        penalty,
                        i + 1,
                        used.update(j1, true),
                    );
                } else {
                    assert(total1 >= u64::MAX);
                    assert(total2 >= u64::MAX);
                }
            },
            None => {
                match best2 {
                    Some(j2) => {
                        assert(total2 >= u64::MAX);
                        assert(total1 >= u64::MAX);
                    },
                    None => {
                        lemma_ordered_from_clamped(
                            costs1,
                            costs2,
                            missing_a1,
                            missing_a2,
                            missing_b1,
                            missing_b2,
                            window,
                            penalty,
                            i + 1,
                            used,
                        );
                    },
                }
            },
        }
    }
}

/// The clamped score of two ordered collections can be computed from the
/// clamped diff scores and the clamped missing costs of their items.
pub proof fn lemma_ordered_model_clamped(
    costs1: spec_fn(int, int) -> nat,
    costs2: spec_fn(int, int) -> nat,
    missing_a1: Seq<nat>,
    missing_a2: Seq<nat>,
    missing_b1: Seq<nat>,
    missing_b2: Seq<nat>,
    window: nat,
    penalty: nat,
)
    requires
        costs_clamp_alike(costs1, costs2, missing_a1.len(), missing_b1.len(), window),
        scores_clamp_alike(missing_a1, missing_a2),
        scores_clamp_alike(missing_b1, missing_b2),
    ensures
        saturate(ordered_model(costs1, missing_a1, missing_b1, window, penalty)) == saturate(
            ordered_model(costs2, missing_a2, missing_b2, window, penalty),
        ),
{
    assert(Seq::new(missing_b1.len(), |j: int| false) =~= Seq::new(
        missing_b2.len(),
        |j: int| false,
    ));
    lemma_ordered_from_clamped(
        costs1,
        costs2,
        missing_a1,
        missing_a2,
        missing_b1,
        missing_b2,
        window,
        penalty,
        0,
        Seq::new(missing_b1.len(), |j: int| false),
    );
}

/// The sum of the first `n` scores.
pub open spec fn total_to(scores: Seq<nat>, n: int) -> nat
    decreases n,
{
    if n <= 0 {
        0
    } else {
        total_to(scores, n - 1) + scores[n - 1]
    }
}

/// With nothing to pair with, every item from `i` on is charged its missing cost.
proof fn lemma_alone_from(
    costs: spec_fn(int, int) -> nat,
    missing: Seq<nat>,
    window: nat,
    penalty: nat,
    i: nat,
)
    requires
        i <= missing.len(),
    ensures
        total_to(missing, i as int) + ordered_from(
            costs,
            missing,
            Seq::empty(),
            window,
            penalty,
            i,
            Seq::empty(),
        ) == total_to(missing, missing.len() as int),
    decreases missing.len() - i,
{
    if i < missing.len() {
        let nobody = Seq::<bool>::empty();
        assert(best_match(costs, nobody, window, penalty, i as int, missing[i as int]) is None);
        lemma_alone_from(costs, missing, window, penalty, i + 1);
    }
}

/// A collection aligned with an empty one scores the missing costs of its items.
pub proof fn lemma_ordered_against_nothing(
    costs: spec_fn(int, int) -> nat,
    missing: Seq<nat>,
    window: nat,
    penalty: nat,
)
    ensures
        ordered_model(costs, missing, Seq::empty(), window, penalty) == total_to(
            missing,
            missing.len() as int,
        ),
{
    assert(Seq::new(0, |j: int| false) =~= Seq::<bool>::empty());
    lemma_alone_from(costs, missing, window, penalty, 0);
}

/// Where nothing is paired, everything is charged.
proof fn lemma_unmatched_all(missing: Seq<nat>, used: Seq<bool>, n: int)
    requires
        n <= missing.len() == used.len(),
        forall|j: int| 0 <= j < n ==> !#[trigger] used[j],
    ensures
        unmatched_cost(missing, used, n) == total_to(missing, n),
    decreases n,
{
    if n > 0 {
        lemma_unmatched_all(missing, used, n - 1);
        assert(!used[n - 1]);
    }
}

/// An empty collection aligned with another one scores the missing costs of the other's items.
pub proof fn lemma_nothing_against_ordered(
    costs: spec_fn(int, int) -> nat,
    missing: Seq<nat>,
    window: nat,
    penalty: nat,
)
    ensures
        ordered_model(costs, Seq::empty(), missing, window, penalty) == total_to(
            missing,
            missing.len() as int,
        ),
{
    lemma_unmatched_all(missing, Seq::new(missing.len(), |j: int| false), missing.len() as int);
}

/// Whether every item keeps its own place when a collection is aligned with
/// itself: an item that costs something when missing is never as close as
/// zero to an earlier item, within the window, that costs nothing when
/// missing. This holds whenever `penalty` is at least one.
pub open spec fn keeps_own_place(
    costs: spec_fn(int, int) -> nat,
    missing: Seq<nat>,
    window: nat,
    penalty: nat,
) -> bool {
    forall|i: int, k: int|
        0 <= k < i < missing.len() && offset(i, k) <= window && missing[k] == 0 && missing[i] > 0
            ==> shifted_cost(#[trigger] costs(i, k), i, k, penalty) > 0
}

/// Whether `used` marks, among the positions before `i`, exactly those whose
/// item costs something when missing, and none from `i` on.
spec fn paired_with_itself(missing: Seq<nat>, used: Seq<bool>, i: nat) -> bool {
    &&& used.len() == missing.len()
    &&& forall|j: int|
        0 <= j < missing.len() ==> (#[trigger] used[j] <==> (j < i && missing[j] > 0))
}

/// Where everything unpaired costs nothing when missing, nothing is charged.
proof fn lemma_unmatched_free(missing: Seq<nat>, used: Seq<bool>, n: int)
    requires
        n <= missing.len() == used.len(),
        forall|j: int| 0 <= j < n && !#[trigger] used[j] ==> missing[j] == 0,
    ensures
        unmatched_cost(missing, used, n) == 0,
    decreases n,
{
    if n > 0 {
        lemma_unmatched_free(missing, used, n - 1);
        assert(used[n - 1] || missing[n - 1] == 0);
    }
}

/// From position `i` on, every item that costs something when missing pairs
/// with its own position at no cost.
proof fn lemma_identity_from(
    costs: spec_fn(int, int) -> nat,
    missing: Seq<nat>,
    window: nat,
    penalty: nat,
    i: nat,
    used: Seq<bool>,
)
    requires
        forall|k: int| 0 <= k < missing.len() ==> #[trigger] costs(k, k) == 0,
        keeps_own_place(costs, missing, window, penalty),
        paired_with_itself(missing, used, i),
    ensures
        ordered_from(costs, missing, missing, window, penalty, i, used) == 0,
    decreases missing.len() - i,
{
    if i >= missing.len() {
        lemma_unmatched_free(missing, used, missing.len() as int);
    } else {
        let at = i as int;
        assert(costs(at, at) == 0);
        assert(penalty * offset(at, at) == 0) by (nonlinear_arith)
            requires
                offset(at, at) == 0,
        ;
        if missing[at] == 0 {
            assert(best_match(costs, used, window, penalty, at, missing[at]) is None);
            assert(paired_with_itself(missing, used, i + 1));
            lemma_identity_from(costs, missing, window, penalty, i + 1, used);
        } else {
            assert(!used[at]);
            assert(is_candidate(used, window, at, at));
            assert forall|k: int| #[trigger] is_candidate(used, window, at, k) && k < at implies 0
                < shifted_cost(costs(at, k), at, k, penalty) by {
                assert(!used[k]);
                assert(missing[k] == 0);
            }
            assert(is_best(costs, used, window, penalty, at, missing[at], at));
            lemma_best_match_is(costs, used, window, penalty, at, missing[at], at);
            let marked = used.update(at, true);
            assert(paired_with_itself(missing, marked, i + 1)) by {
                assert forall|j: int| 0 <= j < missing.len() implies (#[trigger] marked[j] <==> (j
                    < i + 1 && missing[j] > 0)) by {
                    assert(used[j] <==> (j < i && missing[j] > 0));
                }
            }
            lemma_identity_from(costs, missing, window, penalty, i + 1, marked);
        }
    }
}

/// A collection aligned with itself scores zero, provided that every item
/// keeps its own place.
pub proof fn lemma_ordered_identity(
    costs: spec_fn(int, int) -> nat,
    missing: Seq<nat>,
    window: nat,
    penalty: nat,
)
    requires
        forall|k: int| 0 <= k < missing.len() ==> #[trigger] costs(k, k) == 0,
        keeps_own_place(costs, missing, window, penalty),
    ensures
        ordered_model(costs, missing, missing, window, penalty) == 0,
{
    lemma_identity_from(
        costs,
        missing,
        window,
        penalty,
        0,
        Seq::new(missing.len(), |j: int| false),
    );
}

/// The number of positions among the first `n` that are unpaired and cost something when missing.
spec fn unpaired_paying(missing: Seq<nat>, used: Seq<bool>, n: int) -> nat
    decreases n,
{
    if n <= 0 {
        0
    } else {
        unpaired_paying(missing, used, n - 1) + if !used[n - 1] && missing[n - 1] > 0 {
            1nat
        } else {
            0nat
        }
    }
}

/// The number of items from `i` up to `n` that cost something when missing.
spec fn paying_between(missing: Seq<nat>, i: int, n: int) -> nat
    decreases n - i,
{
    if n <= i {
        0
    } else {
        paying_between(missing, i, n - 1) + if missing[n - 1] > 0 {
            1nat
        } else {
            0nat
        }
    }
}

/// Every unpaired position that costs something when missing is charged at least one.
proof fn lemma_unpaired_are_charged(missing: Seq<nat>, used: Seq<bool>, n: int)
    requires
        n <= missing.len() == used.len(),
    ensures
        unmatched_cost(missing, used, n) >= unpaired_paying(missing, used, n),
    decreases n,
{
    if n > 0 {
        lemma_unpaired_are_charged(missing, used, n - 1);
    }
}

/// Pairing with a position takes it from the unpaired positions that cost
/// something when missing, where it was one of them.
proof fn lemma_unpaired_after_pairing(missing: Seq<nat>, used: Seq<bool>, j: int, n: int)
    requires
        0 <= j < used.len() == missing.len(),
        n <= used.len(),
    ensures
        unpaired_paying(missing, used, n) == unpaired_paying(missing, used.update(j, true), n)
            + if j < n && !used[j] && missing[j] > 0 {
            1nat
        } else {
            0nat
        },
    decreases n,
{
    if n > 0 {
        lemma_unpaired_after_pairing(missing, used, j, n - 1);
    }
}

/// Leaving out the first of the items leaves out one of those that cost
/// something when missing, where the first item does.
proof fn lemma_paying_without_first(missing: Seq<nat>, i: int, n: int)
    requires
        0 <= i < n <= missing.len(),
    ensures
        paying_between(missing, i, n) == paying_between(missing, i + 1, n) + if missing[i] > 0 {
            1nat
        } else {
            0nat
        },
    decreases n - i,
{
    if n > i + 1 {
        lemma_paying_without_first(missing, i, n - 1);
    } else {
        assert(paying_between(missing, i, i) == 0);
        assert(paying_between(missing, i + 1, i + 1) == 0);
    }
}

/// Where more positions that cost something when missing are unpaired than
/// items that cost something when missing are still to come, something is
/// charged.
proof fn lemma_too_few_left(
    costs: spec_fn(int, int) -> nat,
    missing: Seq<nat>,
    window: nat,
    penalty: nat,
    i: nat,
    used: Seq<bool>,
)
    requires
        used.len() == missing.len(),
        i <= missing.len(),
        unpaired_paying(missing, used, missing.len() as int) > paying_between(
            missing,
            i as int,
            missing.len() as int,
        ),
    ensures
        ordered_from(costs, missing, missing, window, penalty, i, used) > 0,
    decreases missing.len() - i,
{
    let n = missing.len() as int;
    if i >= missing.len() {
        lemma_unpaired_are_charged(missing, used, n);
    } else {
        lemma_paying_without_first(missing, i as int, n);
        match best_match(costs, used, window, penalty, i as int, missing[i as int]) {
            Some(j) => {
                assert(is_best(costs, used, window, penalty, i as int, missing[i as int], j));
                lemma_unpaired_after_pairing(missing, used, j, n);
                lemma_too_few_left(costs, missing, window, penalty, i + 1, used.update(j, true));
            },
            None => {
                if missing[i as int] == 0 {
                    lemma_too_few_left(costs, missing, window, penalty, i + 1, used);
                }
            },
        }
    }
}

/// The marks after the items before `i` have each been paired with their own position.
spec fn own_places(missing: Seq<nat>, i: nat) -> Seq<bool> {
    Seq::new(missing.len(), |j: int| j < i && missing[j] > 0)
}

/// After the items before `i` have each been paired with their own position,
/// as many positions that cost something when missing are unpaired as items
/// that cost something when missing are still to come.
proof fn lemma_own_places_balance(missing: Seq<nat>, i: nat, n: int)
    requires
        i <= missing.len(),
        n <= missing.len(),
    ensures
        unpaired_paying(missing, own_places(missing, i), n) == paying_between(
            missing,
            i as int,
            n,
        ),
    decreases n,
{
    if n > 0 {
        lemma_own_places_balance(missing, i, n - 1);
        if n - 1 < i {
            lemma_paying_nothing_before(missing, i as int, n - 1);
            lemma_paying_nothing_before(missing, i as int, n);
        }
    }
}

/// No item lies between a position and an earlier one.
proof fn lemma_paying_nothing_before(missing: Seq<nat>, i: int, n: int)
    requires
        n <= i,
    ensures
        paying_between(missing, i, n) == 0,
{
}

/// Whether an item from `i` on does not keep its own place.
spec fn leaves_own_place_from(
    costs: spec_fn(int, int) -> nat,
    missing: Seq<nat>,
    window: nat,
    penalty: nat,
    from: int,
) -> bool {
    exists|i: int, k: int|
        from <= i && 0 <= k < i < missing.len() && offset(i, k) <= window && missing[k] == 0
            && missing[i] > 0 && shifted_cost(#[trigger] costs(i, k), i, k, penalty) == 0
}

/// Whether the item at `i` does not keep its own place.
spec fn leaves_own_place_at(
    costs: spec_fn(int, int) -> nat,
    missing: Seq<nat>,
    window: nat,
    penalty: nat,
    i: int,
) -> bool {
    exists|k: int|
        0 <= k < i < missing.len() && offset(i, k) <= window && missing[k] == 0 && missing[i] > 0
            && shifted_cost(#[trigger] costs(i, k), i, k, penalty) == 0
}

/// Where the items before `i` have kept their own places and an item from
/// `i` on does not, something is charged.
proof fn lemma_leaving_is_charged(
    costs: spec_fn(int, int) -> nat,
    missing: Seq<nat>,
    window: nat,
    penalty: nat,
    i: nat,
)
    requires
        forall|k: int| 0 <= k < missing.len() ==> #[trigger] costs(k, k) == 0,
        i <= missing.len(),
        leaves_own_place_from(costs, missing, window, penalty, i as int),
    ensures
        ordered_from(costs, missing, missing, window, penalty, i, own_places(missing, i)) > 0,
    decreases missing.len() - i,
{
    let n = missing.len() as int;
    let at = i as int;
    let used = own_places(missing, i);
    if i >= missing.len() {
        // No item is left that could leave its place.
    } else if leaves_own_place_at(costs, missing, window, penalty, at) {
        let k = choose|k: int|
            0 <= k < at < missing.len() && offset(at, k) <= window && missing[k] == 0 && missing[at]
                > 0 && shifted_cost(#[trigger] costs(at, k), at, k, penalty) == 0;
        assert(is_candidate(used, window, at, k));
        // The cheapest candidate costs nothing, so the item pairs, and not with its own position.
        let found = best_match(costs, used, window, penalty, at, missing[at]);
        if found is None {
            lemma_some_best_exists(costs, used, window, penalty, at, missing[at], k);
        }
        let j = found.unwrap();
        assert(is_best(costs, used, window, penalty, at, missing[at], j));
        assert(shifted_cost(costs(at, j), at, j, penalty) == 0);
        assert(j <= k);
        assert(missing[j] == 0);
        lemma_own_places_balance(missing, i, n);
        lemma_paying_without_first(missing, at, n);
        lemma_unpaired_after_pairing(missing, used, j, n);
        lemma_too_few_left(costs, missing, window, penalty, i + 1, used.update(j, true));
    } else {
        assert(leaves_own_place_from(costs, missing, window, penalty, at + 1)) by {
            let (i2, k2) = choose|i2: int, k2: int|
                at <= i2 && 0 <= k2 < i2 < missing.len() && offset(i2, k2) <= window && missing[k2]
                    == 0 && missing[i2] > 0 && shifted_cost(
                    #[trigger] costs(i2, k2),
                    i2,
                    k2,
                    penalty,
                ) == 0;
            if i2 == at {
                assert(leaves_own_place_at(costs, missing, window, penalty, at));
            }
        }
        assert(costs(at, at) == 0);
        assert(penalty * offset(at, at) == 0) by (nonlinear_arith)
            requires
                offset(at, at) == 0,
        ;
        if missing[at] == 0 {
            assert(best_match(costs, used, window, penalty, at, missing[at]) is None);
            assert(used =~= own_places(missing, i + 1));
        } else {
            assert(is_candidate(used, window, at, at));
            assert forall|k: int| #[trigger] is_candidate(used, window, at, k) && k < at implies 0
                < shifted_cost(costs(at, k), at, k, penalty) by {
                assert(missing[k] == 0);
                if shifted_cost(costs(at, k), at, k, penalty) == 0 {
                    assert(leaves_own_place_at(costs, missing, window, penalty, at));
                }
            }
            assert(is_best(costs, used, window, penalty, at, missing[at], at));
            lemma_best_match_is(costs, used, window, penalty, at, missing[at], at);
            assert(used.update(at, true) =~= own_places(missing, i + 1));
        }
        lemma_leaving_is_charged(costs, missing, window, penalty, i + 1);
    }
}

/// Whether a candidate below `n` is cheaper than the missing cost.
spec fn some_pairing_below(
    costs: spec_fn(int, int) -> nat,
    used: Seq<bool>,
    window: nat,
    penalty: nat,
    i: int,
    missing: nat,
    n: int,
) -> bool {
    exists|c: int| #[trigger]
        is_candidate(used, window, i, c) && c < n && shifted_cost(costs(i, c), i, c, penalty)
            < missing
}

/// Among the candidates below `n`, where one is cheaper than the missing
/// cost, one is the cheapest and the first of the cheapest.
proof fn lemma_best_below(
    costs: spec_fn(int, int) -> nat,
    used: Seq<bool>,
    window: nat,
    penalty: nat,
    i: int,
    missing: nat,
    n: int,
) -> (j: int)
    requires
        n <= used.len(),
        some_pairing_below(costs, used, window, penalty, i, missing, n),
    ensures
        is_candidate(used, window, i, j),
        j < n,
        shifted_cost(costs(i, j), i, j, penalty) < missing,
        forall|c: int| #[trigger]
            is_candidate(used, window, i, c) && c < n ==> {
                &&& shifted_cost(costs(i, j), i, j, penalty) <= shifted_cost(
                    costs(i, c),
                    i,
                    c,
                    penalty,
                )
                &&& c < j ==> shifted_cost(costs(i, j), i, j, penalty) < shifted_cost(
                    costs(i, c),
                    i,
                    c,
                    penalty,
                )
            },
    decreases n,
{
    let witness = choose|c: int| #[trigger]
        is_candidate(used, window, i, c) && c < n && shifted_cost(costs(i, c), i, c, penalty)
            < missing;
    let last = n - 1;
    if some_pairing_below(costs, used, window, penalty, i, missing, last) {
        let before = lemma_best_below(costs, used, window, penalty, i, missing, last);
        if is_candidate(used, window, i, last) && shifted_cost(costs(i, last), i, last, penalty)
            < shifted_cost(costs(i, before), i, before, penalty) {
            last
        } else {
            before
        }
    } else {
        assert(witness == last);
        assert forall|c: int| #[trigger] is_candidate(used, window, i, c) && c < last implies
            shifted_cost(costs(i, c), i, c, penalty) >= missing by {}
        last
    }
}

/// Where some candidate is cheaper than the missing cost, the item pairs.
proof fn lemma_some_best_exists(
    costs: spec_fn(int, int) -> nat,
    used: Seq<bool>,
    window: nat,
    penalty: nat,
    i: int,
    missing: nat,
    k: int,
)
    requires
        is_candidate(used, window, i, k),
        shifted_cost(costs(i, k), i, k, penalty) < missing,
    ensures
        best_match(costs, used, window, penalty, i, missing) is Some,
{
    let j = lemma_best_below(costs, used, window, penalty, i, missing, used.len() as int);
    assert(is_best(costs, used, window, penalty, i, missing, j));
}

/// A collection aligned with itself scores more than zero where an item does
/// not keep its own place: the alignment pairs that item with an earlier
/// position at no cost, and a position that costs something is left over.
pub proof fn lemma_ordered_identity_breaks(
    costs: spec_fn(int, int) -> nat,
    missing: Seq<nat>,
    window: nat,
    penalty: nat,
)
    requires
        forall|k: int| 0 <= k < missing.len() ==> #[trigger] costs(k, k) == 0,
        !keeps_own_place(costs, missing, window, penalty),
    ensures
        ordered_model(costs, missing, missing, window, penalty) > 0,
{
    assert(leaves_own_place_from(costs, missing, window, penalty, 0)) by {
        let (i, k) = choose|i: int, k: int|
            0 <= k < i < missing.len() && offset(i, k) <= window && missing[k] == 0 && missing[i]
                > 0 && !(shifted_cost(#[trigger] costs(i, k), i, k, penalty) > 0);
        assert(shifted_cost(costs(i, k), i, k, penalty) == 0);
    }
    assert(own_places(missing, 0) =~= Seq::new(missing.len(), |j: int| false));
    lemma_leaving_is_charged(costs, missing, window, penalty, 0);
}

/// A collection aligned with itself scores zero if and only if every item keeps its own place.
pub proof fn lemma_ordered_identity_exactly(
    costs: spec_fn(int, int) -> nat,
    missing: Seq<nat>,
    window: nat,
    penalty: nat,
)
    requires
        forall|k: int| 0 <= k < missing.len() ==> #[trigger] costs(k, k) == 0,
    ensures
        ordered_model(costs, missing, missing, window, penalty) == 0 <==> keeps_own_place(
            costs,
            missing,
            window,
            penalty,
        ),
{
    if keeps_own_place(costs, missing, window, penalty) {
        lemma_ordered_identity(costs, missing, window, penalty);
    } else {
        lemma_ordered_identity_breaks(costs, missing, window, penalty);
    }
}

/// Every item keeps its own place as soon as drifting by one position costs something.
pub proof fn lemma_penalty_keeps_own_place(
    costs: spec_fn(int, int) -> nat,
    missing: Seq<nat>,
    window: nat,
    penalty: nat,
)
    requires
        penalty >= 1,
    ensures
        keeps_own_place(costs, missing, window, penalty),
{
    assert forall|i: int, k: int|
        0 <= k < i < missing.len() && offset(i, k) <= window && missing[k] == 0 && missing[i]
            > 0 implies shifted_cost(#[trigger] costs(i, k), i, k, penalty) > 0 by {
        assert(penalty * offset(i, k) >= 1) by (nonlinear_arith)
            requires
                penalty >= 1,
                offset(i, k) >= 1,
        ;
    }
}

} // verus!
