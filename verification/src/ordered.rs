//! Windowed greedy alignment of two ordered collections.
//!
//! Every item of the first collection looks, in order, for the cheapest item
//! of the second collection that is still free and lies at most `window`
//! positions away. Pairing two items costs their own diff score plus
//! `penalty` for every position of drift. An item whose cheapest pairing is
//! not cheaper than its missing cost stays unpaired and is charged that
//! missing cost, and so is every item of the second collection that nobody
//! paired with.
//!
//! The model in this file works on plain numbers: a cost for every pair of
//! positions and a missing cost for every position. The scorers of vectors,
//! text and tree arrays all reduce to it.
use vstd::prelude::*;
use crate::score::{add_scores, exact_scores, saturate, scale_score};

verus! {

/// The number of positions between `i` and `j`.
pub open spec fn offset(i: int, j: int) -> nat {
    if i <= j {
        (j - i) as nat
    } else {
        (i - j) as nat
    }
}

/// The cost of pairing position `i` with position `j`, given the diff score of the two items.
pub open spec fn shifted_cost(cost: nat, i: int, j: int, penalty: nat) -> nat {
    cost + penalty * offset(i, j)
}

/// Whether position `j` of the second collection may still be paired with position `i`.
pub open spec fn is_candidate(used: Seq<bool>, window: nat, i: int, j: int) -> bool {
    &&& 0 <= j < used.len()
    &&& offset(i, j) <= window
    &&& !used[j]
}

/// Whether `j` is the position that item `i` pairs with: a candidate that is
/// strictly cheaper than leaving the item unpaired, at most as expensive as
/// every other candidate, and strictly cheaper than every earlier one.
pub open spec fn is_best(
    costs: spec_fn(int, int) -> nat,
    used: Seq<bool>,
    window: nat,
    penalty: nat,
    i: int,
    missing: nat,
    j: int,
) -> bool {
    &&& is_candidate(used, window, i, j)
    &&& shifted_cost(costs(i, j), i, j, penalty) < missing
    &&& forall|k: int| #[trigger]
        is_candidate(used, window, i, k) ==> {
            &&& shifted_cost(costs(i, j), i, j, penalty) <= shifted_cost(costs(i, k), i, k, penalty)
            &&& k < j ==> shifted_cost(costs(i, j), i, j, penalty) < shifted_cost(
                costs(i, k),
                i,
                k,
                penalty,
            )
        }
}

/// The position that item `i` pairs with, if any.
pub open spec fn best_match(
    costs: spec_fn(int, int) -> nat,
    used: Seq<bool>,
    window: nat,
    penalty: nat,
    i: int,
    missing: nat,
) -> Option<int> {
    if exists|j: int| is_best(costs, used, window, penalty, i, missing, j) {
        Some(choose|j: int| is_best(costs, used, window, penalty, i, missing, j))
    } else {
        None
    }
}

/// The missing costs of the unpaired positions among the first `n` of the second collection.
pub open spec fn unmatched_cost(missing: Seq<nat>, used: Seq<bool>, n: int) -> nat
    decreases n,
{
    if n <= 0 {
        0
    } else {
        unmatched_cost(missing, used, n - 1) + if used[n - 1] {
            0
        } else {
            missing[n - 1]
        }
    }
}

/// The charges of the items from position `i` on, followed by the charges of
/// what is left unpaired in the second collection, when `used` marks what the
/// items before `i` have paired with.
pub open spec fn ordered_from(
    costs: spec_fn(int, int) -> nat,
    missing_a: Seq<nat>,
    missing_b: Seq<nat>,
    window: nat,
    penalty: nat,
    i: nat,
    used: Seq<bool>,
) -> nat
    decreases missing_a.len() - i,
{
    if i >= missing_a.len() {
        unmatched_cost(missing_b, used, missing_b.len() as int)
    } else {
        match best_match(costs, used, window, penalty, i as int, missing_a[i as int]) {
            Some(j) => shifted_cost(costs(i as int, j), i as int, j, penalty) + ordered_from(
                costs,
                missing_a,
                missing_b,
                window,
                penalty,
                i + 1,
                used.update(j, true),
            ),
            None => missing_a[i as int] + ordered_from(
                costs,
                missing_a,
                missing_b,
                window,
                penalty,
                i + 1,
                used,
            ),
        }
    }
}

/// The diff score of two ordered collections: `costs(i, j)` is the diff score
/// between item `i` of the first and item `j` of the second, `missing_a` and
/// `missing_b` hold the missing cost of every item.
pub open spec fn ordered_model(
    costs: spec_fn(int, int) -> nat,
    missing_a: Seq<nat>,
    missing_b: Seq<nat>,
    window: nat,
    penalty: nat,
) -> nat {
    ordered_from(
        costs,
        missing_a,
        missing_b,
        window,
        penalty,
        0,
        Seq::new(missing_b.len(), |j: int| false),
    )
}

/// One past the last position of the second collection (of length `len_b`)
/// that lies within `window` of `i`.
pub open spec fn band_end(i: int, len_b: int, window: int) -> int {
    if i + window + 1 <= len_b {
        i + window + 1
    } else {
        len_b
    }
}

/// The first position of the second collection that lies within `window` of
/// `i`, or `band_end` where there is none.
pub open spec fn band_start(i: int, len_b: int, window: int) -> int {
    if i - window <= 0 {
        0
    } else if i - window <= band_end(i, len_b, window) {
        i - window
    } else {
        band_end(i, len_b, window)
    }
}

/// Whether `table` holds, for every position `i` of the first collection, one
/// cost for each position of the second that lies within `window` of `i`.
pub open spec fn is_banded(table: Seq<Vec<u64>>, len_a: int, len_b: int, window: int) -> bool {
    &&& table.len() == len_a
    &&& forall|i: int|
        0 <= i < len_a ==> (#[trigger] table[i]).len() == band_end(i, len_b, window) - band_start(
            i,
            len_b,
            window,
        )
}

/// The pair costs that a banded table holds; zero outside the band.
pub open spec fn table_costs(table: Seq<Vec<u64>>, len_b: int, window: int) -> spec_fn(
    int,
    int,
) -> nat {
    |i: int, j: int|
        if 0 <= i < table.len() && band_start(i, len_b, window) <= j < band_end(i, len_b, window)
            && j - band_start(i, len_b, window) < table[i].len() {
            table[i][j - band_start(i, len_b, window)] as nat
        } else {
            0
        }
}

/// Whether `table` holds, at every place of its band, the clamped cost that
/// `costs` gives to the pair of positions.
pub open spec fn table_holds(
    table: Seq<Vec<u64>>,
    costs: spec_fn(int, int) -> nat,
    len_b: int,
    window: int,
) -> bool {
    forall|i: int, j: int|
        0 <= i < table.len() && band_start(i, len_b, window) <= j < band_end(i, len_b, window)
            ==> #[trigger] table[i][j - band_start(i, len_b, window)] == saturate(costs(i, j))
}

/// The position that an item pairs with is unique.
pub proof fn lemma_best_match_is(
    costs: spec_fn(int, int) -> nat,
    used: Seq<bool>,
    window: nat,
    penalty: nat,
    i: int,
    missing: nat,
    j: int,
)
    requires
        is_best(costs, used, window, penalty, i, missing, j),
    ensures
        best_match(costs, used, window, penalty, i, missing) == Some(j),
{
    let chosen = choose|k: int| is_best(costs, used, window, penalty, i, missing, k);
    assert(is_best(costs, used, window, penalty, i, missing, chosen));
    assert(is_candidate(used, window, i, chosen));
    assert(is_candidate(used, window, i, j));
    if chosen < j {
        assert(shifted_cost(costs(i, j), i, j, penalty) < shifted_cost(
            costs(i, chosen),
            i,
            chosen,
            penalty,
        ));
    } else if j < chosen {
        assert(shifted_cost(costs(i, chosen), i, chosen, penalty) < shifted_cost(
            costs(i, j),
            i,
            j,
            penalty,
        ));
    }
}

/// The first position within `window` of `i`, clipped to the second collection.
pub fn band_start_of(i: usize, len_b: usize, window: usize) -> (start: usize)
    ensures
        start == band_start(i as int, len_b as int, window as int),
{
    let end = band_end_of(i, len_b, window);
    let start = i.saturating_sub(window);
    if start <= end {
        start
    } else {
        end
    }
}

/// One past the last position within `window` of `i`, clipped to the second collection.
pub fn band_end_of(i: usize, len_b: usize, window: usize) -> (end: usize)
    ensures
        end == band_end(i as int, len_b as int, window as int),
{
    let end = i.saturating_add(window).saturating_add(1);
    if end <= len_b {
        end
    } else {
        len_b
    }
}

/// Looks along the band of item `i` for the position that the item pairs
/// with, and returns it with the charge for the item: the cost of the pairing,
/// or the missing cost where the item stays unpaired.
fn best_in_band(
    table: &Vec<Vec<u64>>,
    used: &Vec<bool>,
    i: usize,
    missing: u64,
    window: usize,
    penalty: u64,
) -> (found: (Option<usize>, u64))
    requires
        i < table.len(),
        table[i as int].len() == band_end(i as int, used.len() as int, window as int) - band_start(
            i as int,
            used.len() as int,
            window as int,
        ),
    ensures
        found.0 is None ==> found.1 == missing && best_match(
            table_costs(table@, used.len() as int, window as int),
            used@,
            window as nat,
            penalty as nat,
            i as int,
            missing as nat,
        ) is None,
        found.0 matches Some(j) ==> j < used.len() && found.1 == shifted_cost(
            table_costs(table@, used.len() as int, window as int)(i as int, j as int),
            i as int,
            j as int,
            penalty as nat,
        ) && best_match(
            table_costs(table@, used.len() as int, window as int),
            used@,
            window as nat,
            penalty as nat,
            i as int,
            missing as nat,
        ) == Some(j as int),
{
    let ghost costs = table_costs(table@, used.len() as int, window as int);
    let start = band_start_of(i, used.len(), window);
    let end = band_end_of(i, used.len(), window);
    let row = &table[i];
    let mut best_score = missing;
    let mut best_j: Option<usize> = None;
    let mut j = start;
    while j < end
        invariant
            start <= j <= end <= used.len(),
            start == band_start(i as int, used.len() as int, window as int),
            end == band_end(i as int, used.len() as int, window as int),
            i < table.len(),
            row == table[i as int],
            row.len() == end - start,
            costs == table_costs(table@, used.len() as int, window as int),
            best_score <= missing,
            best_j is None ==> best_score == missing,
            best_j matches Some(b) ==> {
                &&& start <= b < j
                &&& is_candidate(used@, window as nat, i as int, b as int)
                &&& best_score < missing
                &&& best_score == shifted_cost(
                    costs(i as int, b as int),
                    i as int,
                    b as int,
                    penalty as nat,
                )
            },
            forall|k: int|
                start <= k < j && #[trigger] is_candidate(used@, window as nat, i as int, k) ==> {
                    &&& best_score <= shifted_cost(costs(i as int, k), i as int, k, penalty as nat)
                    &&& (best_j matches Some(b) && k < b) ==> best_score < shifted_cost(
                        costs(i as int, k),
                        i as int,
                        k,
                        penalty as nat,
                    )
                },
        decreases end - j,
    {
        if !used[j] {
            let drift = if j >= i {
                j - i
            } else {
                i - j
            };
            let score = add_scores(row[j - start], scale_score(penalty, drift as u64));
            proof {
                assert(drift == offset(i as int, j as int));
                assert(costs(i as int, j as int) == row[j - start] as nat);
                let shifted = shifted_cost(
                    costs(i as int, j as int),
                    i as int,
                    j as int,
                    penalty as nat,
                );
                let product: nat = penalty as nat * drift as nat;
                assert(shifted == row[j - start] as nat + product);
                assert(score == saturate(shifted));
                assert(is_candidate(used@, window as nat, i as int, j as int));
            }
            // A clamped cost is below the best charge so far exactly where the exact cost is.
            if score < best_score {
                best_score = score;
                best_j = Some(j);
            }
        }
        j += 1;
    }
    proof {
        let w = window as nat;
        let p = penalty as nat;
        assert forall|k: int| #[trigger] is_candidate(used@, w, i as int, k) implies start <= k
            < end by {}
        match best_j {
            Some(b) => {
                assert(is_best(costs, used@, w, p, i as int, missing as nat, b as int));
                lemma_best_match_is(costs, used@, w, p, i as int, missing as nat, b as int);
            },
            None => {
                assert forall|k: int| !is_best(costs, used@, w, p, i as int, missing as nat, k) by {
                    if is_candidate(used@, w, i as int, k) {
                        assert(start <= k < end);
                    }
                }
            },
        }
    }
    (best_j, best_score)
}

/// Runs the alignment on a banded table of pair costs and on the missing
/// costs of both collections, and returns the clamped total.
pub fn align(
    table: &Vec<Vec<u64>>,
    missing_a: &Vec<u64>,
    missing_b: &Vec<u64>,
    window: usize,
    penalty: u64,
) -> (score: u64)
    requires
        is_banded(table@, missing_a.len() as int, missing_b.len() as int, window as int),
    ensures
        score == saturate(
            ordered_model(
                table_costs(table@, missing_b.len() as int, window as int),
                exact_scores(missing_a@),
                exact_scores(missing_b@),
                window as nat,
                penalty as nat,
            ),
        ),
{
    let len_a = missing_a.len();
    let len_b = missing_b.len();
    let ghost costs = table_costs(table@, len_b as int, window as int);
    let ghost miss_a = exact_scores(missing_a@);
    let ghost miss_b = exact_scores(missing_b@);
    let ghost model = ordered_model(costs, miss_a, miss_b, window as nat, penalty as nat);

    let mut used: Vec<bool> = Vec::new();
    let mut k: usize = 0;
    while k < len_b
        invariant
            k <= len_b,
            used.len() == k,
            forall|j: int| 0 <= j < k ==> !used[j],
        decreases len_b - k,
    {
        used.push(false);
        k += 1;
    }
    assert(used@ =~= Seq::new(miss_b.len(), |j: int| false));

    // The items of the first collection, in order.
    let mut total: u64 = 0;
    let ghost mut exact: nat = 0;
    let mut i: usize = 0;
    while i < len_a
        invariant
            i <= len_a,
            len_a == missing_a.len(),
            len_b == missing_b.len(),
            used.len() == len_b,
            is_banded(table@, len_a as int, len_b as int, window as int),
            costs == table_costs(table@, len_b as int, window as int),
            miss_a == exact_scores(missing_a@),
            total == saturate(exact),
            model == exact + ordered_from(
                costs,
                miss_a,
                miss_b,
                window as nat,
                penalty as nat,
                i as nat,
                used@,
            ),
        decreases len_a - i,
    {
        let (pick, charge) = best_in_band(table, &used, i, missing_a[i], window, penalty);
        assert(miss_a[i as int] == missing_a[i as int] as nat);
        if let Some(j) = pick {
            used.set(j, true);
        }
        total = add_scores(total, charge);
        proof {
            exact = exact + charge as nat;
        }
        i += 1;
    }

    // What is left unpaired in the second collection.
    let mut j: usize = 0;
    let ghost before = exact;
    while j < len_b
        invariant
            j <= len_b,
            len_b == missing_b.len(),
            used.len() == len_b,
            miss_b == exact_scores(missing_b@),
            total == saturate(exact),
            exact == before + unmatched_cost(miss_b, used@, j as int),
        decreases len_b - j,
    {
        if !used[j] {
            total = add_scores(total, missing_b[j]);
            proof {
                exact = exact + missing_b[j as int] as nat;
            }
        }
        j += 1;
    }
    total
}

} // verus!
